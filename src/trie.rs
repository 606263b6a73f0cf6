//! The route map: a prefix tree of path segments kept in an arena of nodes.

use vstd::prelude::*;
use crate::keyed::{
    find_key, key_map, lemma_onto_absent, lemma_onto_last, lemma_onto_push, onto, set_entry,
};
use crate::text::{
    normalize, normalize_path, remove_first, remove_first_chars, replace_all, replace_all_chars,
    segments, split_segments, chars_of, string_of, views,
};

verus! {

/// The key under which a node keeps its wildcard child.
pub open spec fn wildcard() -> Seq<char> {
    seq!['*']
}

/// The dispatch key of a WebSocket route's handler chain.
pub open spec fn websocket_key() -> Seq<char> {
    seq!['w', 'e', 'b', 's', 'o', 'c', 'k', 'e', 't']
}

/// The dispatch key of a raw ASGI route's handler chain.
pub open spec fn asgi_key() -> Seq<char> {
    seq!['a', 's', 'g', 'i']
}

/// A declared path parameter: its placeholder text as it stands in the route
/// path (without the braces) and its name.
pub struct ParamSpec {
    pub full: String,
    pub name: String,
}

/// What a route serves, with its handler chains: one per HTTP method, or a
/// single chain for a WebSocket or a raw ASGI route.
pub enum RouteKind<H> {
    Http(Vec<(String, H)>),
    WebSocket(H),
    Asgi(H),
}

/// A route to register.
pub struct Route<H> {
    pub path: String,
    pub path_parameters: Vec<ParamSpec>,
    pub kind: RouteKind<H>,
}

/// A node of the tree.
pub struct Node<H> {
    /// Segment key (a literal segment or the wildcard `*`) with the child's index.
    pub children: Vec<(String, usize)>,
    /// Parameters declared by the first route that reached this node.
    pub path_parameters: Option<Vec<ParamSpec>>,
    /// Handler chains by dispatch key.
    pub handlers: Option<Vec<(String, H)>>,
    pub is_asgi: bool,
    /// The static mount that this node stands for.
    pub static_path: Option<String>,
}

/// The two ways in which registration or lookup fails.
#[derive(PartialEq, Eq, Structural, Debug, Clone, Copy)]
pub enum RouteError {
    /// Two routes that reach one node declare different parameters.
    ConflictingPathParameters,
    /// No node, or no node with handlers, answers the path.
    NotFound,
}

/// What lookup found for a request path.
pub struct RouteMatch {
    /// The index of the node reached.
    pub node: usize,
    pub is_asgi: bool,
    /// The segments that wildcards captured, in order.
    pub path_params: Vec<String>,
    /// The request path with the first occurrence of a passed static mount's
    /// prefix removed, where one was passed.
    pub rewritten_path: Option<String>,
}

/// A path router over a prefix tree of path segments.
pub struct RouteMap<H> {
    nodes: Vec<Node<H>>,
    /// Plain routes' nodes under the root, by whole path; kept apart from the
    /// root's segment keys, which descent reads.
    plain_nodes: Vec<(String, usize)>,
    static_paths: Vec<String>,
    plain_routes: Vec<String>,
}

/// Whether some string of `v` has view `p`.
pub open spec fn holds(v: Seq<String>, p: Seq<char>) -> bool {
    exists|i: int| 0 <= i < v.len() && (#[trigger] v[i])@ == p
}

/// No two strings of `v` are equal.
pub open spec fn distinct(v: Seq<String>) -> bool {
    forall|i: int, j: int| 0 <= i < j < v.len() ==> (#[trigger] v[i])@ != (#[trigger] v[j])@
}

/// The set of the views of `v`.
pub open spec fn view_set(v: Seq<String>) -> Set<Seq<char>> {
    Set::new(|p: Seq<char>| holds(v, p))
}

/// The names of declared parameters, in order.
pub open spec fn param_names(ps: Seq<ParamSpec>) -> Seq<Seq<char>> {
    ps.map_values(|p: ParamSpec| p.name@)
}

/// `s` with the placeholder text of each parameter removed, parameter by parameter.
pub open spec fn strip_params(s: Seq<char>, ps: Seq<ParamSpec>) -> Seq<char>
    decreases ps.len(),
{
    if ps.len() == 0 {
        s
    } else {
        strip_params(replace_all(s, ps[0].full@, seq![]), ps.drop_first())
    }
}

/// The path under which a parameterized or mounted route is kept: placeholders
/// emptied, then each `{}` turned into the wildcard.
pub open spec fn trie_path(path: Seq<char>, ps: Seq<ParamSpec>) -> Seq<char> {
    replace_all(strip_params(path, ps), seq!['{', '}'], wildcard())
}

/// `prior` with the handler chains of a route of kind `kind` set in it.
pub open spec fn with_handlers<H>(prior: Map<Seq<char>, H>, kind: RouteKind<H>) -> Map<
    Seq<char>,
    H,
> {
    match kind {
        RouteKind::Http(v) => onto(prior, v@),
        RouteKind::WebSocket(h) => prior.insert(websocket_key(), h),
        RouteKind::Asgi(h) => prior.insert(asgi_key(), h),
    }
}

/// The handler map of a node, empty where it has none.
pub open spec fn handler_map<H>(n: Node<H>) -> Map<Seq<char>, H> {
    match n.handlers {
        Some(v) => key_map(v@),
        None => Map::empty(),
    }
}

/// One step of a descent outcome: captures so far and a rewrite prefix so far,
/// joined with what the rest of the descent gives.
pub open spec fn join(
    caps: Seq<Seq<char>>,
    strip: Option<Seq<char>>,
    d: Option<(int, Seq<Seq<char>>, Option<Seq<char>>)>,
) -> Option<(int, Seq<Seq<char>>, Option<Seq<char>>)> {
    match d {
        Some(x) => Some((x.0, caps + x.1, if strip is Some { strip } else { x.2 })),
        None => None,
    }
}

/// The view of an optional string.
pub open spec fn opt_view(s: Option<String>) -> Option<Seq<char>> {
    match s {
        Some(x) => Some(x@),
        None => None,
    }
}

impl<H> RouteMap<H> {
    pub closed spec fn nodes(self) -> Seq<Node<H>> {
        self.nodes@
    }

    /// The static mount paths.
    pub closed spec fn static_set(self) -> Set<Seq<char>> {
        view_set(self.static_paths@)
    }

    /// The plain routes' paths.
    pub closed spec fn plain_set(self) -> Set<Seq<char>> {
        view_set(self.plain_routes@)
    }

    /// The nodes of plain routes under the root, by whole path.
    pub closed spec fn plain_kids(self) -> Map<Seq<char>, usize> {
        key_map(self.plain_nodes@)
    }

    /// The children of node `n`, by key.
    pub open spec fn kids(self, n: int) -> Map<Seq<char>, usize> {
        key_map(self.nodes()[n].children@)
    }

    /// Node indices are in range, the root exists, and the path sets hold no
    /// path twice.
    pub closed spec fn wf(self) -> bool {
        &&& self.nodes@.len() >= 1
        &&& forall|n: int, j: int|
            0 <= n < self.nodes@.len() && 0 <= j < self.nodes@[n].children@.len()
                ==> (#[trigger] self.nodes@[n].children@[j]).1 < self.nodes@.len()
        &&& forall|j: int|
            0 <= j < self.plain_nodes@.len() ==> (#[trigger] self.plain_nodes@[j]).1
                < self.nodes@.len()
        &&& distinct(self.static_paths@)
        &&& distinct(self.plain_routes@)
    }

    /// The node reached from `n` by following exactly the keys `ks`.
    pub open spec fn walk(self, n: int, ks: Seq<Seq<char>>) -> Option<int>
        decreases ks.len(),
    {
        if ks.len() == 0 {
            Some(n)
        } else if self.kids(n).contains_key(ks[0]) {
            self.walk(self.kids(n)[ks[0]] as int, ks.drop_first())
        } else {
            None
        }
    }

    /// Lookup's descent from `n` over segments `segs`: a literal child first,
    /// else the wildcard child (capturing the segment), else, at a static
    /// mount, staying at the node. Gives the node reached, the captures, and
    /// the first mount prefix (other than `/`) that a segment fell through.
    pub open spec fn descend(self, n: int, segs: Seq<Seq<char>>) -> Option<
        (int, Seq<Seq<char>>, Option<Seq<char>>),
    >
        decreases segs.len(),
    {
        if segs.len() == 0 {
            Some((n, seq![], None))
        } else {
            let k = self.kids(n);
            let s = segs[0];
            let rest = segs.drop_first();
            if k.contains_key(s) {
                self.descend(k[s] as int, rest)
            } else if k.contains_key(wildcard()) {
                join(seq![s], None, self.descend(k[wildcard()] as int, rest))
            } else if self.nodes()[n].static_path is Some {
                let pre = self.nodes()[n].static_path->0@;
                join(
                    seq![],
                    if pre != seq!['/'] {
                        Some(pre)
                    } else {
                        None
                    },
                    self.descend(n, rest),
                )
            } else {
                None
            }
        }
    }

    /// The node, captures and rewrite prefix that a request path resolves to.
    pub open spec fn resolve(self, raw: Seq<char>) -> Option<
        (int, Seq<Seq<char>>, Option<Seq<char>>),
    > {
        let p = normalize(raw);
        if self.plain_set().contains(p) {
            if self.plain_kids().contains_key(p) {
                Some((self.plain_kids()[p] as int, seq![], None))
            } else {
                None
            }
        } else {
            self.descend(0, segments(p))
        }
    }

    /// What `resolve` gives, where the node reached has handlers.
    pub open spec fn route_of(self, raw: Seq<char>) -> Option<
        (int, Seq<Seq<char>>, Option<Seq<char>>),
    > {
        match self.resolve(raw) {
            Some(d) => if self.nodes()[d.0].handlers is Some {
                Some(d)
            } else {
                None
            },
            None => None,
        }
    }

    /// Whether `route` is kept in the tree by segments (it has parameters or
    /// is a static mount) rather than as a plain route by its whole path.
    pub open spec fn uses_trie(self, route: Route<H>) -> bool {
        route.path_parameters@.len() > 0 || self.static_set().contains(route.path@)
    }

    /// The path of `route` as it is kept.
    pub open spec fn mount_path(self, route: Route<H>) -> Seq<char> {
        if self.uses_trie(route) {
            trie_path(route.path@, route.path_parameters@)
        } else {
            route.path@
        }
    }

    /// The segment keys along which a route kept in the tree lies, from the root.
    pub open spec fn route_keys(self, route: Route<H>) -> Seq<Seq<char>> {
        segments(self.mount_path(route))
    }

    /// The node at which `route` is kept, if it exists: found by its keys in
    /// the tree, or by its whole path among the plain routes' nodes.
    pub open spec fn locate(self, route: Route<H>) -> Option<int> {
        if self.uses_trie(route) {
            self.walk(0, self.route_keys(route))
        } else if self.plain_kids().contains_key(route.path@) {
            Some(self.plain_kids()[route.path@] as int)
        } else {
            None
        }
    }

    /// Registering `route` would meet a node that already declares other parameters.
    pub open spec fn conflicts(self, route: Route<H>) -> bool {
        match self.locate(route) {
            Some(n) => match self.nodes()[n].path_parameters {
                Some(d) => param_names(d@) != param_names(route.path_parameters@),
                None => false,
            },
            None => false,
        }
    }

    /// The handler map of the node that `route` is kept at, empty if there is none yet.
    pub open spec fn prior_handlers(self, route: Route<H>) -> Map<Seq<char>, H> {
        match self.locate(route) {
            Some(n) => handler_map(self.nodes()[n]),
            None => Map::empty(),
        }
    }

    /// `self` keeps every node of `old` and every child link of `old`, and,
    /// for every old node other than `n`, its parameters, handlers, ASGI flag
    /// and mount.
    pub open spec fn extends(self, old: Self, n: int) -> bool {
        &&& old.nodes().len() <= self.nodes().len()
        &&& forall|i: int| 0 <= i < old.nodes().len() ==> old.kids(i).submap_of(#[trigger] self.kids(i))
        &&& old.plain_kids().submap_of(self.plain_kids())
        &&& forall|i: int|
            0 <= i < old.nodes().len() && i != n ==> {
                &&& (#[trigger] self.nodes()[i]).path_parameters == old.nodes()[i].path_parameters
                &&& self.nodes()[i].handlers == old.nodes()[i].handlers
                &&& self.nodes()[i].is_asgi == old.nodes()[i].is_asgi
                &&& self.nodes()[i].static_path == old.nodes()[i].static_path
            }
    }
}

impl<H> Node<H> {
    /// A node with no children, parameters, handlers or mount.
    pub fn new() -> (r: Node<H>)
        ensures
            r.children@.len() == 0,
            r.path_parameters is None,
            r.handlers is None,
            !r.is_asgi,
            r.static_path is None,
    {
        Node {
            children: Vec::new(),
            path_parameters: None,
            handlers: None,
            is_asgi: false,
            static_path: None,
        }
    }
}

/// Where `v` holds a string with view `p`, if anywhere.
fn position_of(v: &Vec<String>, p: &String) -> (r: Option<usize>)
    ensures
        r is None <==> !holds(v@, p@),
        r matches Some(i) ==> i < v@.len() && v@[i as int]@ == p@,
{
    let mut i: usize = 0;
    while i < v.len()
        invariant
            i <= v@.len(),
            forall|j: int| 0 <= j < i ==> (#[trigger] v@[j])@ != p@,
        decreases v@.len() - i,
    {
        if v[i] == *p {
            return Some(i);
        }
        i += 1;
    }
    None
}

/// Adds `p` to the distinct strings `v`, unless it is there.
fn add_distinct(v: &mut Vec<String>, p: String)
    requires
        distinct(old(v)@),
    ensures
        distinct(final(v)@),
        view_set(final(v)@) == view_set(old(v)@).insert(p@),
{
    if position_of(v, &p).is_none() {
        let ghost added = p@;
        v.push(p);
        proof {
            assert forall|q: Seq<char>| holds(v@, q) == (holds(old(v)@, q) || q == added) by {
                if holds(old(v)@, q) {
                    let i = choose|i: int| 0 <= i < old(v)@.len() && (#[trigger] old(v)@[i])@ == q;
                    assert(v@[i] == old(v)@[i]);
                }
                if q == added {
                    assert(v@[old(v)@.len() as int]@ == q);
                }
            }
        }
        assert(view_set(v@) =~= view_set(old(v)@).insert(added));
    } else {
        assert(view_set(v@) =~= view_set(old(v)@).insert(p@));
    }
}

/// Removes `p` from the distinct strings `v`; tells whether it was there.
fn remove_distinct(v: &mut Vec<String>, p: &String) -> (r: bool)
    requires
        distinct(old(v)@),
    ensures
        distinct(final(v)@),
        view_set(final(v)@) == view_set(old(v)@).remove(p@),
        r == view_set(old(v)@).contains(p@),
{
    match position_of(v, p) {
        Some(i) => {
            let ghost w = v@;
            v.remove(i);
            proof {
                assert forall|a: int, b: int| 0 <= a < b < v@.len() implies (#[trigger] v@[a])@
                    != (#[trigger] v@[b])@ by {
                    let a0 = if a < i { a } else { a + 1 };
                    let b0 = if b < i { b } else { b + 1 };
                    assert(v@[a] == w[a0] && v@[b] == w[b0]);
                }
                assert forall|q: Seq<char>| holds(v@, q) == (holds(w, q) && q != p@) by {
                    if holds(w, q) && q != p@ {
                        let j = choose|j: int| 0 <= j < w.len() && (#[trigger] w[j])@ == q;
                        if j < i {
                            assert(v@[j] == w[j]);
                        } else {
                            assert(j != i);
                            assert(v@[j - 1] == w[j]);
                        }
                    }
                    if holds(v@, q) {
                        let j = choose|j: int| 0 <= j < v@.len() && (#[trigger] v@[j])@ == q;
                        let j0 = if j < i { j } else { j + 1 };
                        assert(v@[j] == w[j0]);
                        assert(j0 != i);
                    }
                }
            }
            assert(view_set(v@) =~= view_set(w).remove(p@));
            assert(view_set(w).contains(p@));
            true
        },
        None => {
            assert(view_set(v@) =~= view_set(v@).remove(p@));
            false
        },
    }
}

impl<H> Default for RouteMap<H> {
    fn default() -> (r: RouteMap<H>)
        ensures
            r.wf(),
            r.nodes().len() == 1,
            r.nodes()[0].children@.len() == 0,
            r.nodes()[0].handlers is None,
            r.nodes()[0].path_parameters is None,
            r.nodes()[0].static_path is None,
            !r.nodes()[0].is_asgi,
            r.static_set() == Set::<Seq<char>>::empty(),
            r.plain_set() == Set::<Seq<char>>::empty(),
    {
        RouteMap::new()
    }
}

impl<H> RouteMap<H> {
    /// An empty route map: a root without children, and no static or plain paths.
    pub fn new() -> (r: RouteMap<H>)
        ensures
            r.wf(),
            r.nodes().len() == 1,
            r.nodes()[0].children@.len() == 0,
            r.nodes()[0].handlers is None,
            r.nodes()[0].path_parameters is None,
            r.nodes()[0].static_path is None,
            !r.nodes()[0].is_asgi,
            r.static_set() == Set::<Seq<char>>::empty(),
            r.plain_set() == Set::<Seq<char>>::empty(),
    {
        let r = RouteMap {
            nodes: vec![Node::new()],
            plain_nodes: Vec::new(),
            static_paths: Vec::new(),
            plain_routes: Vec::new(),
        };
        assert(r.plain_kids() =~= Map::<Seq<char>, usize>::empty());
        assert(view_set(r.static_paths@) =~= Set::<Seq<char>>::empty());
        assert(view_set(r.plain_routes@) =~= Set::<Seq<char>>::empty());
        r
    }

    /// Records `path` as a static mount.
    pub fn add_static_path(&mut self, path: &str)
        requires
            old(self).wf(),
        ensures
            final(self).wf(),
            final(self).static_set() == old(self).static_set().insert(path@),
            final(self).plain_set() == old(self).plain_set(),
            final(self).nodes() == old(self).nodes(),
            final(self).plain_kids() == old(self).plain_kids(),
    {
        add_distinct(&mut self.static_paths, path.to_owned());
    }

    /// Whether `path` is a static mount.
    pub fn is_static_path(&self, path: &str) -> (r: bool)
        ensures
            r == self.static_set().contains(path@),
    {
        position_of(&self.static_paths, &path.to_owned()).is_some()
    }

    /// Forgets `path` as a static mount; tells whether it was one.
    pub fn remove_static_path(&mut self, path: &str) -> (r: bool)
        requires
            old(self).wf(),
        ensures
            final(self).wf(),
            r == old(self).static_set().contains(path@),
            final(self).static_set() == old(self).static_set().remove(path@),
            final(self).plain_set() == old(self).plain_set(),
            final(self).nodes() == old(self).nodes(),
            final(self).plain_kids() == old(self).plain_kids(),
    {
        remove_distinct(&mut self.static_paths, &path.to_owned())
    }

    /// Records `path` as a plain route.
    pub fn add_plain_route(&mut self, path: &str)
        requires
            old(self).wf(),
        ensures
            final(self).wf(),
            final(self).plain_set() == old(self).plain_set().insert(path@),
            final(self).static_set() == old(self).static_set(),
            final(self).nodes() == old(self).nodes(),
            final(self).plain_kids() == old(self).plain_kids(),
    {
        add_distinct(&mut self.plain_routes, path.to_owned());
    }

    /// Whether `path` is a plain route.
    pub fn is_plain_route(&self, path: &str) -> (r: bool)
        ensures
            r == self.plain_set().contains(path@),
    {
        position_of(&self.plain_routes, &path.to_owned()).is_some()
    }

    /// Forgets `path` as a plain route; tells whether it was one.
    pub fn remove_plain_route(&mut self, path: &str) -> (r: bool)
        requires
            old(self).wf(),
        ensures
            final(self).wf(),
            r == old(self).plain_set().contains(path@),
            final(self).plain_set() == old(self).plain_set().remove(path@),
            final(self).static_set() == old(self).static_set(),
            final(self).nodes() == old(self).nodes(),
            final(self).plain_kids() == old(self).plain_kids(),
    {
        remove_distinct(&mut self.plain_routes, &path.to_owned())
    }

    /// The number of nodes.
    pub fn node_count(&self) -> (r: usize)
        ensures
            r == self.nodes().len(),
    {
        self.nodes.len()
    }

    /// The node at index `i`.
    pub fn node(&self, i: usize) -> (r: &Node<H>)
        requires
            i < self.nodes().len(),
        ensures
            *r == self.nodes()[i as int],
    {
        &self.nodes[i]
    }

    /// The child of node `n` under `key`.
    fn child(&self, n: usize, key: &String) -> (r: Option<usize>)
        requires
            self.wf(),
            n < self.nodes().len(),
        ensures
            r is Some <==> self.kids(n as int).contains_key(key@),
            r matches Some(c) ==> c == self.kids(n as int)[key@] && c < self.nodes().len(),
    {
        let kids = &self.nodes[n].children;
        match find_key(kids, key) {
            Some(i) => {
                proof {
                    lemma_onto_last(Map::empty(), kids@, i as int, key@);
                }
                Some(kids[i].1)
            },
            None => {
                proof {
                    lemma_onto_absent(Map::empty(), kids@, key@);
                }
                None
            },
        }
    }

    /// The node of the plain route `path`.
    fn plain_child(&self, path: &String) -> (r: Option<usize>)
        requires
            self.wf(),
        ensures
            r is Some <==> self.plain_kids().contains_key(path@),
            r matches Some(c) ==> c == self.plain_kids()[path@] && c < self.nodes().len(),
    {
        match find_key(&self.plain_nodes, path) {
            Some(i) => {
                proof {
                    lemma_onto_last(Map::empty(), self.plain_nodes@, i as int, path@);
                }
                Some(self.plain_nodes[i].1)
            },
            None => {
                proof {
                    lemma_onto_absent(Map::empty(), self.plain_nodes@, path@);
                }
                None
            },
        }
    }

    /// The node of the plain route `path`, created under the root if missing.
    fn ensure_plain(&mut self, path: &String) -> (n: usize)
        requires
            old(self).wf(),
        ensures
            final(self).wf(),
            final(self).extends(*old(self), -1),
            n < final(self).nodes().len(),
            final(self).plain_kids().contains_key(path@),
            final(self).plain_kids()[path@] == n,
            forall|i: int| 0 <= i < old(self).nodes().len() ==> #[trigger] final(self).nodes()[i]
                == old(self).nodes()[i],
            old(self).plain_kids().contains_key(path@) ==> *final(self) == *old(self),
            !old(self).plain_kids().contains_key(path@) ==> {
                &&& n == old(self).nodes().len()
                &&& final(self).nodes().len() == n + 1
                &&& final(self).plain_kids() == old(self).plain_kids().insert(path@, n)
                &&& final(self).nodes()[n as int].children@.len() == 0
                &&& final(self).nodes()[n as int].path_parameters is None
                &&& final(self).nodes()[n as int].handlers is None
                &&& !final(self).nodes()[n as int].is_asgi
                &&& final(self).nodes()[n as int].static_path is None
            },
            final(self).static_paths == old(self).static_paths,
            final(self).plain_routes == old(self).plain_routes,
    {
        match self.plain_child(path) {
            Some(c) => c,
            None => {
                let j = self.nodes.len();
                let ghost prev = *self;
                self.nodes.push(Node::new());
                let key = path.clone();
                proof {
                    lemma_onto_push(Map::empty(), self.plain_nodes@, (key, j));
                }
                self.plain_nodes.push((key, j));
                proof {
                    assert forall|x: int| 0 <= x < prev.nodes().len() implies #[trigger]
                        self.nodes()[x] == prev.nodes()[x] by {}
                    assert forall|x: int, y: int|
                        0 <= x < self.nodes@.len() && 0 <= y < self.nodes@[x].children@.len()
                            implies (#[trigger] self.nodes@[x].children@[y]).1
                        < self.nodes@.len() by {
                        if x < prev.nodes().len() {
                            assert(self.nodes@[x] == prev.nodes@[x]);
                            assert(prev.nodes@[x].children@[y].1 < prev.nodes@.len());
                        }
                    }
                    assert forall|y: int| 0 <= y < self.plain_nodes@.len() implies (
                    #[trigger] self.plain_nodes@[y]).1 < self.nodes@.len() by {
                        if y < prev.plain_nodes@.len() {
                            assert(self.plain_nodes@[y] == prev.plain_nodes@[y]);
                        }
                    }
                    assert forall|x: int| 0 <= x < prev.nodes().len() implies prev.kids(
                        x).submap_of(#[trigger] self.kids(x)) by {
                        assert(self.nodes()[x] == prev.nodes()[x]);
                    }
                }
                j
            },
        }
    }

    /// The node reached from the root by following exactly the keys `keys`.
    fn find_node(&self, keys: &Vec<String>) -> (r: Option<usize>)
        requires
            self.wf(),
        ensures
            r is None <==> self.walk(0, views(keys@)) is None,
            r matches Some(n) ==> self.walk(0, views(keys@)) == Some(n as int) && n
                < self.nodes().len(),
    {
        let ghost ks = views(keys@);
        let mut cur: usize = 0;
        let mut i: usize = 0;
        assert(ks.skip(0) =~= ks);
        while i < keys.len()
            invariant
                self.wf(),
                ks == views(keys@),
                i <= keys@.len(),
                cur < self.nodes().len(),
                self.walk(0, ks) == self.walk(cur as int, ks.skip(i as int)),
            decreases keys@.len() - i,
        {
            assert(ks.skip(i as int)[0] == keys@[i as int]@);
            assert(ks.skip(i as int).drop_first() =~= ks.skip(i + 1));
            match self.child(cur, &keys[i]) {
                Some(c) => {
                    cur = c;
                },
                None => {
                    return None;
                },
            }
            i += 1;
        }
        assert(ks.skip(i as int) =~= Seq::<Seq<char>>::empty());
        Some(cur)
    }
}

/// Every value of `onto(m, v)` is below `b` where those of `m` and `v` are.
proof fn lemma_onto_bound(m: Map<Seq<char>, usize>, v: Seq<(String, usize)>, b: int)
    requires
        forall|k: Seq<char>| m.contains_key(k) ==> m[k] < b,
        forall|j: int| 0 <= j < v.len() ==> (#[trigger] v[j]).1 < b,
    ensures
        forall|k: Seq<char>| onto(m, v).contains_key(k) ==> onto(m, v)[k] < b,
    decreases v.len(),
{
    if v.len() > 0 {
        let m2 = m.insert(v[0].0@, v[0].1);
        assert(v[0].1 < b);
        assert forall|k: Seq<char>| m2.contains_key(k) implies m2[k] < b by {
            if k != v[0].0@ {
                assert(m.contains_key(k));
            }
        }
        assert forall|j: int| 0 <= j < v.drop_first().len() implies (
        #[trigger] v.drop_first()[j]).1 < b by {
            assert(v.drop_first()[j] == v[j + 1]);
        }
        lemma_onto_bound(m2, v.drop_first(), b);
        assert(onto(m, v) == onto(m2, v.drop_first()));
    }
}

impl<H> RouteMap<H> {
    /// `route` is registered: its node exists, has handlers, and declares
    /// parameters with the route's names.
    pub open spec fn holds_route(self, route: Route<H>) -> bool {
        match self.locate(route) {
            Some(n) => {
                &&& self.nodes()[n].handlers is Some
                &&& self.nodes()[n].path_parameters matches Some(d) && param_names(d@)
                    == param_names(route.path_parameters@)
            },
            None => false,
        }
    }

    /// The node that `route` is kept at, if it exists yet.
    pub open spec fn prior_node(self, route: Route<H>) -> Option<Node<H>> {
        match self.locate(route) {
            Some(n) => Some(self.nodes()[n]),
            None => None,
        }
    }

    proof fn lemma_kids_bound(self, n: int)
        requires
            self.wf(),
            0 <= n < self.nodes().len(),
        ensures
            forall|k: Seq<char>| #[trigger]
                self.kids(n).contains_key(k) ==> 0 <= self.kids(n)[k] < self.nodes().len(),
    {
        let v = self.nodes()[n].children@;
        assert forall|j: int| 0 <= j < v.len() implies (#[trigger] v[j]).1 < self.nodes().len() by {
            assert(self.nodes@[n].children@[j] == v[j]);
        }
        lemma_onto_bound(Map::empty(), v, self.nodes().len() as int);
    }

    proof fn lemma_walk_in_range(self, n: int, ks: Seq<Seq<char>>)
        requires
            self.wf(),
            0 <= n < self.nodes().len(),
        ensures
            self.walk(n, ks) matches Some(x) ==> 0 <= x < self.nodes().len(),
        decreases ks.len(),
    {
        if ks.len() > 0 && self.kids(n).contains_key(ks[0]) {
            self.lemma_kids_bound(n);
            self.lemma_walk_in_range(self.kids(n)[ks[0]] as int, ks.drop_first());
        }
    }

    proof fn lemma_walk_push(self, n: int, ks: Seq<Seq<char>>, k: Seq<char>)
        ensures
            self.walk(n, ks.push(k)) == (match self.walk(n, ks) {
                Some(x) => if self.kids(x).contains_key(k) {
                    Some(self.kids(x)[k] as int)
                } else {
                    None
                },
                None => None,
            }),
        decreases ks.len(),
    {
        if ks.len() == 0 {
            assert(ks.push(k).drop_first() =~= Seq::<Seq<char>>::empty());
            assert(ks.push(k)[0] == k);
            if self.kids(n).contains_key(k) {
                assert(self.walk(self.kids(n)[k] as int, Seq::<Seq<char>>::empty()) == Some(
                    self.kids(n)[k] as int,
                ));
            }
        } else {
            assert(ks.push(k)[0] == ks[0]);
            assert(ks.push(k).drop_first() =~= ks.drop_first().push(k));
            if self.kids(n).contains_key(ks[0]) {
                self.lemma_walk_push(self.kids(n)[ks[0]] as int, ks.drop_first(), k);
            }
        }
    }

    proof fn lemma_walk_extends(self, old: Self, m: int, n: int, ks: Seq<Seq<char>>)
        requires
            old.wf(),
            self.extends(old, m),
            0 <= n < old.nodes().len(),
            old.walk(n, ks) is Some,
        ensures
            self.walk(n, ks) == old.walk(n, ks),
        decreases ks.len(),
    {
        if ks.len() > 0 {
            old.lemma_kids_bound(n);
            assert(old.kids(n).submap_of(self.kids(n)));
            self.lemma_walk_extends(old, m, old.kids(n)[ks[0]] as int, ks.drop_first());
        }
    }

    /// `new` is what registering `route` in `self` leaves, with result `r`.
    pub open spec fn registers(self, route: Route<H>, r: Result<usize, RouteError>, new: Self) -> bool {
        &&& new.wf()
        &&& (r is Err <==> self.conflicts(route))
        &&& r is Err ==> r == Err::<usize, RouteError>(RouteError::ConflictingPathParameters)
            && new == self
        &&& r matches Ok(n) ==> {
            let mount = self.mount_path(route);
            let prior = self.prior_node(route);
            let node = new.nodes()[n as int];
            let mounted = self.static_set().contains(mount);
            &&& n < new.nodes().len()
            &&& new.locate(route) == Some(n as int)
            &&& self.locate(route) matches Some(m) ==> m == n
            &&& self.locate(route) is None ==> self.nodes().len() <= n
            &&& new.extends(self, n as int)
            &&& self.locate(route) is Some ==> {
                &&& new.nodes().len() == self.nodes().len()
                &&& new.plain_kids() == self.plain_kids()
                &&& forall|i: int| 0 <= i < self.nodes().len() ==> #[trigger] new.kids(i) == self.kids(i)
            }
            &&& self.locate(route) is None ==> new.kids(n as int) == Map::<Seq<char>, usize>::empty()
            &&& (self.locate(route) is None && !self.uses_trie(route)) ==> {
                &&& new.nodes().len() == self.nodes().len() + 1
                &&& new.plain_kids() == self.plain_kids().insert(route.path@, n)
                &&& forall|i: int| 0 <= i < self.nodes().len() ==> #[trigger] new.kids(i) == self.kids(i)
            }
            &&& (self.locate(route) is None && self.uses_trie(route)) ==> {
                &&& new.plain_kids() == self.plain_kids()
                &&& exists|k: int| #[trigger] new.grows_at(self, self.route_keys(route), k)
            }
            &&& node.path_parameters == (match prior {
                Some(p) if p.path_parameters is Some => p.path_parameters,
                _ => Some(route.path_parameters),
            })
            &&& node.path_parameters matches Some(d) && param_names(d@) == param_names(
                route.path_parameters@,
            )
            &&& node.handlers is Some
            &&& handler_map(node) == with_handlers(self.prior_handlers(route), route.kind)
            &&& opt_view(node.static_path) == (if mounted {
                Some(mount)
            } else {
                match prior {
                    Some(p) => opt_view(p.static_path),
                    None => None,
                }
            })
            &&& node.is_asgi == (mounted || route.kind is Asgi || (prior matches Some(p) && p.is_asgi))
            &&& new.static_set() == self.static_set()
            &&& new.plain_set() == (if self.uses_trie(route) {
                self.plain_set()
            } else {
                self.plain_set().insert(route.path@)
            })
        }
    }

    /// `self` differs from `old` in the children of old nodes only in that the
    /// node that `ks.take(k)` reaches in `old`, which lacks key `ks[k]`, has
    /// gained that key, for the first new node.
    pub open spec fn grows_at(self, old: Self, ks: Seq<Seq<char>>, k: int) -> bool {
        &&& 0 <= k < ks.len()
        &&& old.walk(0, ks.take(k)) is Some
        &&& {
            let a = old.walk(0, ks.take(k))->0;
            &&& !old.kids(a).contains_key(ks[k])
            &&& self.kids(a) == old.kids(a).insert(ks[k], old.nodes().len() as usize)
            &&& forall|i: int|
                0 <= i < old.nodes().len() && i != a ==> #[trigger] self.kids(i) == old.kids(i)
        }
    }

    /// Creates the nodes that are missing along `keys` from the root, and
    /// gives the node at the end.
    #[verifier::spinoff_prover]
    fn ensure_path(&mut self, keys: &Vec<String>) -> (n: usize)
        requires
            old(self).wf(),
        ensures
            final(self).wf(),
            final(self).extends(*old(self), -1),
            n < final(self).nodes().len(),
            final(self).walk(0, views(keys@)) == Some(n as int),
            old(self).walk(0, views(keys@)) matches Some(m) ==> m == n,
            old(self).walk(0, views(keys@)) is None ==> old(self).nodes().len() <= n,
            forall|i: int|
                old(self).nodes().len() <= i < final(self).nodes().len() ==> {
                    &&& (#[trigger] final(self).nodes()[i]).path_parameters is None
                    &&& final(self).nodes()[i].handlers is None
                    &&& !final(self).nodes()[i].is_asgi
                    &&& final(self).nodes()[i].static_path is None
                },
            final(self).static_paths == old(self).static_paths,
            final(self).plain_routes == old(self).plain_routes,
            final(self).plain_nodes == old(self).plain_nodes,
            old(self).walk(0, views(keys@)) is Some ==> *final(self) == *old(self),
            old(self).walk(0, views(keys@)) is None ==> final(self).nodes()[n as int].children@.len()
                == 0,
            old(self).walk(0, views(keys@)) is None ==> exists|k: int|
                #[trigger] final(self).grows_at(*old(self), views(keys@), k),
    {
        let ghost ks = views(keys@);
        let ghost start = *self;
        let mut cur: usize = 0;
        let mut i: usize = 0;
        assert(ks.take(0) =~= Seq::<Seq<char>>::empty());
        // Follow the keys as far as nodes exist.
        while i < keys.len()
            invariant
                self.wf(),
                *self == start,
                ks == views(keys@),
                i <= keys@.len(),
                cur < self.nodes().len(),
                self.walk(0, ks.take(i as int)) == Some(cur as int),
            ensures
                i <= keys@.len(),
                i < keys@.len() ==> !self.kids(cur as int).contains_key(ks[i as int]),
            decreases keys@.len() - i,
        {
            assert(ks.take(i + 1) =~= ks.take(i as int).push(ks[i as int]));
            assert(ks[i as int] == keys@[i as int]@);
            proof {
                self.lemma_walk_push(0, ks.take(i as int), ks[i as int]);
            }
            match self.child(cur, &keys[i]) {
                Some(c) => {
                    cur = c;
                },
                None => {
                    break;
                },
            }
            i += 1;
        }
        let ghost stop = i as int;
        // Create the rest.
        while i < keys.len()
            invariant
                self.wf(),
                ks == views(keys@),
                start.wf(),
                stop <= i <= keys@.len(),
                stop < keys@.len() ==> !start.kids(start.walk(0, ks.take(stop))->0).contains_key(
                    #[trigger] ks[stop],
                ),
                start.walk(0, ks.take(stop)) is Some,
                cur < self.nodes().len(),
                self.walk(0, ks.take(i as int)) == Some(cur as int),
                self.extends(start, -1),
                forall|j: int|
                    start.nodes().len() <= j < self.nodes().len() ==> {
                        &&& (#[trigger] self.nodes()[j]).path_parameters is None
                        &&& self.nodes()[j].handlers is None
                        &&& !self.nodes()[j].is_asgi
                        &&& self.nodes()[j].static_path is None
                    },
                i == stop ==> start.walk(0, ks.take(i as int)) == Some(cur as int) && *self == start,
                i > stop ==> start.walk(0, ks.take(i as int)) is None && start.nodes().len()
                    <= cur && self.nodes()[cur as int].children@.len() == 0,
                self.static_paths == start.static_paths,
                self.plain_routes == start.plain_routes,
                self.plain_nodes == start.plain_nodes,
                i > stop ==> self.grows_at(start, ks, stop),
            decreases keys@.len() - i,
        {
            let ghost prev = *self;
            assert(ks.take(i + 1) =~= ks.take(i as int).push(ks[i as int]));
            assert(ks[i as int] == keys@[i as int]@);
            proof {
                start.lemma_walk_push(0, ks.take(i as int), ks[i as int]);
            }
            let j = self.nodes.len();
            self.nodes.push(Node::new());
            let key = keys[i].clone();
            let ghost mid = *self;
            proof {
                assert(mid.nodes()[cur as int] == prev.nodes()[cur as int]);
            }
            self.nodes[cur].children.push((key, j));
            proof {
                let kc = prev.nodes()[cur as int].children@;
                lemma_onto_push(Map::empty(), kc, (key, j));
                assert(self.nodes()[cur as int].children@ == kc.push((key, j)));
                assert forall|x: int| 0 <= x < prev.nodes().len() implies #[trigger]
                    prev.kids(x).submap_of(self.kids(x)) by {
                    if x != cur {
                        assert(self.nodes()[x] == prev.nodes()[x]);
                    } else {
                        if i == stop {
                            assert(!prev.kids(x).contains_key(key@)) by {
                                if prev.kids(x).contains_key(key@) {
                                    assert(start.kids(x).submap_of(prev.kids(x)));
                                }
                            }
                        } else {
                            assert(prev.kids(x) =~= Map::<Seq<char>, usize>::empty());
                        }
                    }
                }
                assert forall|x: int, y: int|
                    0 <= x < self.nodes@.len() && 0 <= y < self.nodes@[x].children@.len()
                        implies (#[trigger] self.nodes@[x].children@[y]).1 < self.nodes@.len() by {
                    if x < prev.nodes().len() && x != cur {
                        assert(self.nodes()[x] == prev.nodes()[x]);
                        assert(prev.nodes@[x].children@[y].1 < prev.nodes@.len());
                    } else if x == cur {
                        if y < kc.len() {
                            assert(self.nodes@[x].children@[y] == kc[y]);
                            assert(prev.nodes@[x].children@[y].1 < prev.nodes@.len());
                        } else {
                            assert(self.nodes@[x].children@[y] == (key, j));
                        }
                    } else {
                        assert(x == j);
                        assert(self.nodes@[x] == mid.nodes@[x]);
                        assert(self.nodes@[x].children@.len() == 0);
                    }
                }
                assert(self.extends(prev, -1));
                assert(self.wf());
                self.lemma_walk_extends(prev, -1, 0, ks.take(i as int));
                self.lemma_walk_push(0, ks.take(i as int), ks[i as int]);
                assert forall|x: int| 0 <= x < start.nodes().len() implies start.kids(x).submap_of(
                    #[trigger] self.kids(x)) by {
                    assert(start.kids(x).submap_of(prev.kids(x)));
                    assert(prev.kids(x).submap_of(self.kids(x)));
                }
                assert forall|x: int|
                    0 <= x < start.nodes().len() && x != -1 implies (
                    #[trigger] self.nodes()[x]).path_parameters == start.nodes()[x].path_parameters
                    && self.nodes()[x].handlers == start.nodes()[x].handlers
                    && self.nodes()[x].is_asgi == start.nodes()[x].is_asgi
                    && self.nodes()[x].static_path == start.nodes()[x].static_path by {
                    assert(prev.nodes()[x].path_parameters == start.nodes()[x].path_parameters);
                }
                assert(self.nodes()[j as int] == mid.nodes()[j as int]);
                assert(self.kids(cur as int).contains_key(ks[i as int]));
                assert(self.kids(cur as int)[ks[i as int]] == j);
                if i > stop {
                    assert(start.walk(0, ks.take(i + 1)) is None);
                } else {
                    assert(start.walk(0, ks.take(i + 1)) is None);
                }
                let a = start.walk(0, ks.take(stop))->0;
                assert forall|x: int| 0 <= x < start.nodes().len() && x != cur implies #[trigger]
                    self.kids(x) == prev.kids(x) by {
                    assert(self.nodes()[x] == prev.nodes()[x]);
                }
                if i == stop {
                    assert(prev == start);
                    assert(j == start.nodes().len());
                    assert(cur == a);
                    assert(!start.kids(a).contains_key(ks[stop]));
                    assert(key@ == ks[i as int]);
                    assert(self.kids(a) == prev.kids(a).insert(ks[stop], j));
                    let k0: int = stop;
                    assert(self.grows_at(start, ks, k0)) by {
                        assert(0 <= k0 < ks.len());
                        assert(start.walk(0, ks.take(k0)) is Some);
                        assert(self.kids(a) == start.kids(a).insert(
                            ks[k0],
                            start.nodes().len() as usize,
                        ));
                        assert(forall|x: int|
                            0 <= x < start.nodes().len() && x != a ==> #[trigger] self.kids(x)
                                == start.kids(x));
                        assert(a == start.walk(0, ks.take(k0))->0);
                        assert(!start.kids(a).contains_key(ks[k0]));
                    }
                } else {
                    let k0: int = stop;
                    assert(prev.grows_at(start, ks, k0));
                    assert(start.nodes().len() <= cur);
                    assert(self.grows_at(start, ks, k0)) by {
                        start.lemma_walk_in_range(0, ks.take(k0));
                        assert(a < start.nodes().len());
                        assert(self.kids(a) == prev.kids(a));
                        assert(forall|x: int|
                            0 <= x < start.nodes().len() && x != a ==> #[trigger] self.kids(x)
                                == start.kids(x)) by {
                            assert(forall|x: int|
                                0 <= x < start.nodes().len() && x != a ==> #[trigger] prev.kids(x)
                                    == start.kids(x));
                        }
                    }
                }
            }
            cur = j;
            i += 1;
        }
        proof {
            if stop < keys@.len() {
                assert(start.walk(0, ks.take(i as int)) is None);
                assert(self.grows_at(start, ks, stop));
            }
        }
        assert(ks.take(i as int) =~= ks);
        cur
    }
}

/// The path under which a parameterized or mounted route is kept.
fn kept_path(path: &String, ps: &Vec<ParamSpec>) -> (r: Vec<char>)
    ensures
        r@ == trie_path(path@, ps@),
{
    let mut cur = chars_of(path.as_str());
    let empty: Vec<char> = Vec::new();
    let mut i: usize = 0;
    assert(ps@.skip(0) =~= ps@);
    while i < ps.len()
        invariant
            i <= ps@.len(),
            empty@ == Seq::<char>::empty(),
            strip_params(cur@, ps@.skip(i as int)) == strip_params(path@, ps@),
        decreases ps@.len() - i,
    {
        let full = chars_of(ps[i].full.as_str());
        assert(ps@.skip(i as int).drop_first() =~= ps@.skip(i + 1));
        cur = replace_all_chars(&cur, &full, &empty);
        i += 1;
    }
    assert(ps@.skip(i as int) =~= Seq::<ParamSpec>::empty());
    let braces = vec!['{', '}'];
    let star = vec!['*'];
    assert(braces@ =~= seq!['{', '}']);
    assert(star@ =~= wildcard());
    replace_all_chars(&cur, &braces, &star)
}

/// Whether two parameter declarations name the same parameters in the same order.
fn same_names(a: &Vec<ParamSpec>, b: &Vec<ParamSpec>) -> (r: bool)
    ensures
        r == (param_names(a@) == param_names(b@)),
{
    if a.len() != b.len() {
        assert(param_names(a@).len() != param_names(b@).len());
        return false;
    }
    let mut i: usize = 0;
    while i < a.len()
        invariant
            i <= a@.len() == b@.len(),
            forall|j: int| 0 <= j < i ==> (#[trigger] a@[j]).name@ == b@[j].name@,
        decreases a@.len() - i,
    {
        if a[i].name != b[i].name {
            assert(param_names(a@)[i as int] != param_names(b@)[i as int]);
            return false;
        }
        i += 1;
    }
    assert(param_names(a@) =~= param_names(b@));
    true
}

/// Sets each entry of `v` in `hs`, in order.
fn set_entries<H>(hs: &mut Vec<(String, H)>, v: Vec<(String, H)>)
    ensures
        key_map(final(hs)@) == onto(key_map(old(hs)@), v@),
{
    let mut v = v;
    let ghost v0 = v@;
    while v.len() > 0
        invariant
            onto(key_map(hs@), v@) == onto(key_map(old(hs)@), v0),
        decreases v@.len(),
    {
        let ghost before = v@;
        let (k, h) = v.remove(0);
        assert(v@ =~= before.drop_first());
        set_entry(hs, k, h);
    }
}

impl<H> RouteMap<H> {
    /// Registers one route: finds or creates its node, then records its
    /// parameters, mount and handler chains there. A parameter-free route that
    /// is not a static mount is kept whole, apart from the tree, and recorded
    /// as a plain route. Fails, changing nothing, when the node already
    /// declares parameters with other names.
    #[verifier::spinoff_prover]
    pub fn add_route(&mut self, route: Route<H>) -> (r: Result<usize, RouteError>)
        requires
            old(self).wf(),
        ensures
            old(self).registers(route, r, *final(self)),
    {
        let ghost start = *self;
        let Route { path, path_parameters, kind } = route;
        let trie = path_parameters.len() > 0 || self.is_static_path(path.as_str());
        let mut keys: Vec<String> = Vec::new();
        let mount: String;
        if trie {
            let p = kept_path(&path, &path_parameters);
            keys = split_segments(&p);
            mount = string_of(p.as_slice());
            assert(views(keys@) == start.route_keys(route));
        } else {
            mount = path.clone();
        }
        let found = if trie {
            self.find_node(&keys)
        } else {
            self.plain_child(&path)
        };
        assert(found is Some <==> start.locate(route) is Some);
        assert(found matches Some(m) ==> start.locate(route) == Some(m as int));
        match found {
            Some(n) => {
                match &self.nodes[n].path_parameters {
                    Some(d) => {
                        if !same_names(d, &path_parameters) {
                            return Err(RouteError::ConflictingPathParameters);
                        }
                    },
                    None => {},
                }
            },
            None => {},
        }
        let n = if trie {
            self.ensure_path(&keys)
        } else {
            let n = self.ensure_plain(&path);
            self.add_plain_route(path.as_str());
            n
        };
        let ghost mid = *self;
        let mounted = self.is_static_path(mount.as_str());
        proof {
            if start.locate(route) is None {
                assert(!mid.nodes()[n as int].is_asgi);
            }
        }
        let node = &mut self.nodes[n];
        if node.path_parameters.is_none() {
            node.path_parameters = Some(path_parameters);
        }
        if node.handlers.is_none() {
            node.handlers = Some(Vec::new());
            assert(key_map(Seq::<(String, H)>::empty()) =~= Map::<Seq<char>, H>::empty());
        }
        if mounted {
            node.static_path = Some(mount);
            node.is_asgi = true;
        }
        match &mut node.handlers {
            Some(hs) => {
                match kind {
                    RouteKind::Http(v) => {
                        set_entries(hs, v);
                    },
                    RouteKind::WebSocket(h) => {
                        let key = vec!['w', 'e', 'b', 's', 'o', 'c', 'k', 'e', 't'];
                        assert(key@ =~= websocket_key());
                        set_entry(hs, string_of(key.as_slice()), h);
                    },
                    RouteKind::Asgi(h) => {
                        let key = vec!['a', 's', 'g', 'i'];
                        assert(key@ =~= asgi_key());
                        set_entry(hs, string_of(key.as_slice()), h);
                        node.is_asgi = true;
                    },
                }
            },
            None => {},
        }
        proof {
            assert forall|x: int| 0 <= x < self.nodes().len() && x != n implies #[trigger]
                self.nodes()[x] == mid.nodes()[x] by {}
            assert forall|x: int| 0 <= x < self.nodes().len() implies #[trigger] self.kids(x)
                == mid.kids(x) by {
                assert(self.nodes()[x].children == mid.nodes()[x].children);
            }
            assert(self.plain_kids() == mid.plain_kids());
            assert forall|x: int| 0 <= x < start.nodes().len() implies start.kids(x).submap_of(
                #[trigger] self.kids(x)) by {
                assert(start.kids(x).submap_of(mid.kids(x)));
            }
            assert forall|x: int, y: int|
                0 <= x < self.nodes@.len() && 0 <= y < self.nodes@[x].children@.len()
                    implies (#[trigger] self.nodes@[x].children@[y]).1 < self.nodes@.len() by {
                assert(self.nodes()[x].children == mid.nodes()[x].children);
                assert(mid.nodes@[x].children@[y] == self.nodes@[x].children@[y]);
            }
            assert(self.wf());
            assert(self.extends(mid, n as int));
            if trie {
                let keys_v = start.route_keys(route);
                assert(mid.walk(0, keys_v) == Some(n as int));
                self.lemma_walk_extends(mid, n as int, 0, keys_v);
                if start.locate(route) is None {
                    let k = choose|k: int| #[trigger] mid.grows_at(start, keys_v, k);
                    let a = start.walk(0, keys_v.take(k))->0;
                    start.lemma_walk_in_range(0, keys_v.take(k));
                    assert(start.nodes().len() <= self.nodes().len());
                    assert(self.kids(a) == mid.kids(a));
                    assert forall|x: int| 0 <= x < start.nodes().len() && x != a implies #[trigger]
                        self.kids(x) == start.kids(x) by {
                        assert(self.kids(x) == mid.kids(x));
                        assert(mid.kids(x) == start.kids(x));
                    }
                    assert(self.grows_at(start, keys_v, k));
                }
            }
            assert(self.locate(route) == Some(n as int));
            assert(self.extends(start, n as int));
            assert(start.prior_node(route) matches Some(p) ==> p.path_parameters == mid.nodes()[
                n as int].path_parameters && p.handlers == mid.nodes()[n as int].handlers
                && p.is_asgi == mid.nodes()[n as int].is_asgi && p.static_path == mid.nodes()[
                n as int].static_path);
            assert(self.static_set() == start.static_set());
            assert(start.mount_path(route) == mount@);
        }
        Ok(n)
    }

    /// Registers `routes` in order; stops at the first route whose parameters
    /// conflict with the map as the routes before it left it. The outcome is a
    /// run of `add_route` steps: one per registered route, each as
    /// `registers` describes it, the map left as the last step left it; on
    /// failure the route after the last step conflicts with that map, and the
    /// routes after it are not looked at.
    pub fn add_routes(&mut self, routes: Vec<Route<H>>) -> (r: Result<(), RouteError>)
        requires
            old(self).wf(),
        ensures
            final(self).wf(),
            final(self).static_set() == old(self).static_set(),
            exists|states: Seq<RouteMap<H>>, ns: Seq<usize>|
                #[trigger] old(self).runs(routes@, states, ns) && states.last() == *final(self)
                    && (r is Ok <==> ns.len() == routes@.len())
                    && (r is Err ==> states.last().conflicts(routes@[ns.len() as int])),
            r is Err ==> r == Err::<(), RouteError>(RouteError::ConflictingPathParameters),
            r is Ok ==> forall|i: int|
                0 <= i < routes@.len() ==> #[trigger] final(self).holds_route(routes@[i]),
    {
        let ghost all = routes@;
        let ghost start = *self;
        let ghost mut states: Seq<RouteMap<H>> = seq![*self];
        let ghost mut ns: Seq<usize> = seq![];
        let mut pending = routes;
        let total = pending.len();
        let mut done: usize = 0;
        assert(all.skip(0) =~= all);
        while pending.len() > 0
            invariant
                self.wf(),
                start == *old(self),
                self.static_set() == start.static_set(),
                done <= total == all.len(),
                pending@ == all.skip(done as int),
                all == routes@,
                forall|i: int| 0 <= i < done ==> #[trigger] self.holds_route(all[i]),
                start.runs(all, states, ns),
                states.last() == *self,
                ns.len() == done,
            decreases pending@.len(),
        {
            let ghost prev = *self;
            let route = pending.remove(0);
            assert(pending@ =~= all.skip(done + 1));
            assert(route == all[done as int]);
            match self.add_route(route) {
                Ok(n) => {
                    proof {
                        assert forall|i: int| 0 <= i < done + 1 implies #[trigger] self.holds_route(
                            all[i],
                        ) by {
                            if i < done {
                                assert(prev.holds_route(all[i]));
                                let m = prev.locate(all[i])->0;
                                if prev.uses_trie(all[i]) {
                                    let keys = prev.route_keys(all[i]);
                                    prev.lemma_walk_in_range(0, keys);
                                    self.lemma_walk_extends(prev, n as int, 0, keys);
                                } else {
                                    prev.lemma_plain_bound();
                                    assert(prev.plain_kids().submap_of(self.plain_kids()));
                                }
                                assert(self.locate(all[i]) == Some(m));
                                if m == n {
                                    assert(prev.locate(all[done as int]) is Some);
                                }
                            }
                        }
                        let s2 = states.push(*self);
                        let n2 = ns.push(n);
                        assert forall|k: int| 0 <= k < n2.len() implies #[trigger] s2[k].registers(
                            all[k],
                            Ok::<usize, RouteError>(n2[k]),
                            s2[k + 1],
                        ) by {
                            if k < ns.len() {
                                assert(start.runs(all, states, ns));
                                assert(states[k].registers(all[k], Ok::<usize, RouteError>(ns[k]), states[k + 1]));
                            } else {
                                assert(s2[k] == prev);
                            }
                        }
                        states = s2;
                        ns = n2;
                    }
                    done += 1;
                },
                Err(e) => {
                    proof {
                        assert(states.last() == *self);
                    }
                    return Err(e);
                },
            }
        }
        Ok(())
    }

    proof fn lemma_plain_bound(self)
        requires
            self.wf(),
        ensures
            forall|k: Seq<char>| #[trigger]
                self.plain_kids().contains_key(k) ==> 0 <= self.plain_kids()[k] < self.nodes().len(),
    {
        lemma_onto_bound(Map::empty(), self.plain_nodes@, self.nodes().len() as int);
    }

    /// `states` and `ns` are a run of registrations of the first `ns.len()`
    /// routes of `routes`, from `self`: each step succeeds with the node in `ns`.
    pub open spec fn runs(self, routes: Seq<Route<H>>, states: Seq<RouteMap<H>>, ns: Seq<usize>) -> bool {
        &&& ns.len() <= routes.len()
        &&& states.len() == ns.len() + 1
        &&& states[0] == self
        &&& forall|k: int|
            0 <= k < ns.len() ==> #[trigger] states[k].registers(
                routes[k],
                Ok::<usize, RouteError>(ns[k]),
                states[k + 1],
            )
    }
}

/// Whether `s` is exactly `/`.
fn is_root_path(s: &String) -> (r: bool)
    ensures
        r == (s@ == seq!['/']),
{
    let cs = chars_of(s.as_str());
    let r = cs.len() == 1 && cs[0] == '/';
    proof {
        if cs@.len() == 1 && cs@[0] == '/' {
            assert(cs@ =~= seq!['/']);
        }
    }
    r
}

proof fn lemma_join_join(
    a: Seq<Seq<char>>,
    s1: Option<Seq<char>>,
    b: Seq<Seq<char>>,
    s2: Option<Seq<char>>,
    d: Option<(int, Seq<Seq<char>>, Option<Seq<char>>)>,
)
    ensures
        join(a, s1, join(b, s2, d)) == join(
            a + b,
            if s1 is Some {
                s1
            } else {
                s2
            },
            d,
        ),
{
    if let Some(x) = d {
        assert(a + (b + x.1) =~= (a + b) + x.1);
    }
}

impl<H> RouteMap<H> {
    /// The introspection descent from `n`: a literal child first, else the
    /// wildcard child; no static mount is passed through.
    pub open spec fn probe(self, n: int, segs: Seq<Seq<char>>) -> Option<int>
        decreases segs.len(),
    {
        if segs.len() == 0 {
            Some(n)
        } else if self.kids(n).contains_key(segs[0]) {
            self.probe(self.kids(n)[segs[0]] as int, segs.drop_first())
        } else if self.kids(n).contains_key(wildcard()) {
            self.probe(self.kids(n)[wildcard()] as int, segs.drop_first())
        } else {
            None
        }
    }

    /// The node that introspection finds for `path`.
    pub open spec fn inspect(self, path: Seq<char>) -> Option<int> {
        if self.plain_set().contains(path) {
            if self.plain_kids().contains_key(path) {
                Some(self.plain_kids()[path] as int)
            } else {
                None
            }
        } else {
            self.probe(0, segments(path))
        }
    }

    /// Lookup's descent from the root over `segs`.
    fn traverse_to_node(&self, segs: &Vec<String>) -> (r: Option<(usize, Vec<String>, Option<String>)>)
        requires
            self.wf(),
        ensures
            r is None <==> self.descend(0, views(segs@)) is None,
            r matches Some(t) ==> t.0 < self.nodes().len() && self.descend(0, views(segs@))
                == Some((t.0 as int, views(t.1@), opt_view(t.2))),
    {
        let ghost ss = views(segs@);
        let star = string_of(vec!['*'].as_slice());
        assert(star@ =~= wildcard());
        let mut cur: usize = 0;
        let mut caps: Vec<String> = Vec::new();
        let mut strip: Option<String> = None;
        let mut i: usize = 0;
        assert(ss.skip(0) =~= ss);
        proof {
            let d = self.descend(0, ss);
            if let Some(x) = d {
                assert(views(caps@) + x.1 =~= x.1);
            }
        }
        while i < segs.len()
            invariant
                self.wf(),
                ss == views(segs@),
                star@ == wildcard(),
                i <= segs@.len(),
                cur < self.nodes().len(),
                self.descend(0, ss) == join(views(caps@), opt_view(strip), self.descend(cur as int, ss.skip(i as int))),
            decreases segs@.len() - i,
        {
            let ghost rest = ss.skip(i as int);
            assert(rest[0] == segs@[i as int]@);
            assert(rest.drop_first() =~= ss.skip(i + 1));
            proof {
                self.lemma_kids_bound(cur as int);
            }
            match self.child(cur, &segs[i]) {
                Some(c) => {
                    cur = c;
                },
                None => {
                    match self.child(cur, &star) {
                        Some(w) => {
                            let ghost d = self.descend(w as int, ss.skip(i + 1));
                            proof {
                                lemma_join_join(views(caps@), opt_view(strip), seq![rest[0]], None, d);
                            }
                            let seg = segs[i].clone();
                            let ghost c0 = caps@;
                            caps.push(seg);
                            assert(views(caps@) =~= views(c0) + seq![rest[0]]);
                            cur = w;
                        },
                        None => {
                            match &self.nodes[cur].static_path {
                                Some(pre) => {
                                    let ghost st = if pre@ != seq!['/'] {
                                        Some(pre@)
                                    } else {
                                        None::<Seq<char>>
                                    };
                                    let ghost d = self.descend(cur as int, ss.skip(i + 1));
                                    proof {
                                        lemma_join_join(views(caps@), opt_view(strip), seq![], st, d);
                                        assert(views(caps@) + Seq::<Seq<char>>::empty() =~= views(caps@));
                                    }
                                    if strip.is_none() && !is_root_path(pre) {
                                        strip = Some(pre.clone());
                                    }
                                },
                                None => {
                                    return None;
                                },
                            }
                        },
                    }
                },
            }
            i += 1;
        }
        proof {
            assert(ss.skip(i as int) =~= Seq::<Seq<char>>::empty());
            assert(views(caps@) + Seq::<Seq<char>>::empty() =~= views(caps@));
        }
        Some((cur, caps, strip))
    }
}

impl<H> RouteMap<H> {
    /// Introspection's descent from the root over `segs`.
    fn probe_node(&self, segs: &Vec<String>) -> (r: Option<usize>)
        requires
            self.wf(),
        ensures
            r is None <==> self.probe(0, views(segs@)) is None,
            r matches Some(n) ==> n < self.nodes().len() && self.probe(0, views(segs@)) == Some(
                n as int,
            ),
    {
        let ghost ss = views(segs@);
        let star = string_of(vec!['*'].as_slice());
        assert(star@ =~= wildcard());
        let mut cur: usize = 0;
        let mut i: usize = 0;
        assert(ss.skip(0) =~= ss);
        while i < segs.len()
            invariant
                self.wf(),
                ss == views(segs@),
                star@ == wildcard(),
                i <= segs@.len(),
                cur < self.nodes().len(),
                self.probe(0, ss) == self.probe(cur as int, ss.skip(i as int)),
            decreases segs@.len() - i,
        {
            let ghost rest = ss.skip(i as int);
            assert(rest[0] == segs@[i as int]@);
            assert(rest.drop_first() =~= ss.skip(i + 1));
            match self.child(cur, &segs[i]) {
                Some(c) => {
                    cur = c;
                },
                None => {
                    match self.child(cur, &star) {
                        Some(w) => {
                            cur = w;
                        },
                        None => {
                            return None;
                        },
                    }
                },
            }
            i += 1;
        }
        assert(ss.skip(i as int) =~= Seq::<Seq<char>>::empty());
        Some(cur)
    }

    /// Resolves a request path to the node that serves it. The path is trimmed
    /// and loses one trailing `/` (unless it is `/`); a plain route is found
    /// by its whole path, any other path by descent. Gives the node, the
    /// segments that wildcards captured, and the request path with the first
    /// occurrence of a passed static mount's prefix removed. Fails with
    /// `NotFound` when nothing matches or the node has no handlers.
    pub fn parse_scope_to_route(&self, path: &str) -> (r: Result<RouteMatch, RouteError>)
        requires
            self.wf(),
        ensures
            r is Err <==> self.route_of(path@) is None,
            r matches Err(e) ==> e == RouteError::NotFound,
            r matches Ok(m) ==> {
                let d = self.route_of(path@)->0;
                &&& m.node == d.0
                &&& m.node < self.nodes().len()
                &&& views(m.path_params@) == d.1
                &&& m.is_asgi == self.nodes()[d.0].is_asgi
                &&& m.rewritten_path is Some <==> d.2 is Some
                &&& d.2 matches Some(pre) ==> m.rewritten_path->0@ == remove_first(path@, pre)
            },
    {
        let p = normalize_path(path);
        let ps = string_of(p.as_slice());
        let found: (usize, Vec<String>, Option<String>);
        if self.is_plain_route(ps.as_str()) {
            match self.plain_child(&ps) {
                Some(c) => {
                    found = (c, Vec::new(), None);
                    assert(views(found.1@) =~= Seq::<Seq<char>>::empty());
                },
                None => {
                    return Err(RouteError::NotFound);
                },
            }
        } else {
            let segs = split_segments(&p);
            match self.traverse_to_node(&segs) {
                Some(t) => {
                    found = t;
                },
                None => {
                    return Err(RouteError::NotFound);
                },
            }
        }
        let (node, caps, strip) = found;
        if self.nodes[node].handlers.is_none() {
            return Err(RouteError::NotFound);
        }
        let rewritten = match strip {
            Some(pre) => {
                let s = chars_of(path);
                let pc = chars_of(pre.as_str());
                let out = remove_first_chars(&s, &pc);
                Some(string_of(out.as_slice()))
            },
            None => None,
        };
        Ok(RouteMatch { node, is_asgi: self.nodes[node].is_asgi, path_params: caps, rewritten_path: rewritten })
    }

    /// Finds the node for `path` as it is written (no trimming): a plain route
    /// by its whole path, any other path by literal-then-wildcard
    /// descent. Fails with `NotFound` when the descent cannot complete.
    pub fn traverse_to_dict(&self, path: &str) -> (r: Result<usize, RouteError>)
        requires
            self.wf(),
        ensures
            r is Err <==> self.inspect(path@) is None,
            r matches Err(e) ==> e == RouteError::NotFound,
            r matches Ok(n) ==> n < self.nodes().len() && self.inspect(path@) == Some(n as int),
    {
        let p = path.to_owned();
        if self.is_plain_route(path) {
            match self.plain_child(&p) {
                Some(c) => Ok(c),
                None => Err(RouteError::NotFound),
            }
        } else {
            let cs = chars_of(path);
            let segs = split_segments(&cs);
            match self.probe_node(&segs) {
                Some(n) => Ok(n),
                None => Err(RouteError::NotFound),
            }
        }
    }
}

} // verus!

//! Properties of registration and lookup, proved over the spec model.

use vstd::prelude::*;
use crate::text::{is_white, normalize, segments, trim, trim_end, trim_start};
use crate::trie::{param_names, wildcard, Route, RouteMap};

verus! {

/// The segments of `segs` that stand where `keys` holds the wildcard, in order.
pub open spec fn captured(keys: Seq<Seq<char>>, segs: Seq<Seq<char>>) -> Seq<Seq<char>>
    decreases keys.len(),
{
    if keys.len() == 0 || segs.len() == 0 {
        seq![]
    } else {
        (if keys[0] == wildcard() {
            seq![segs[0]]
        } else {
            seq![]
        }) + captured(keys.drop_first(), segs.drop_first())
    }
}

/// `segs` is a concrete instance of the keys `keys` followed from node `n`:
/// literal keys are kept, each wildcard is replaced by a segment that no
/// literal child of the node at that depth has as its key.
pub open spec fn instance_of<H>(
    m: RouteMap<H>,
    n: int,
    keys: Seq<Seq<char>>,
    segs: Seq<Seq<char>>,
) -> bool
    decreases keys.len(),
{
    &&& keys.len() == segs.len()
    &&& keys.len() > 0 ==> {
        &&& m.kids(n).contains_key(keys[0])
        &&& keys[0] == wildcard() ==> !m.kids(n).contains_key(segs[0])
        &&& keys[0] != wildcard() ==> segs[0] == keys[0]
        &&& instance_of(m, m.kids(n)[keys[0]] as int, keys.drop_first(), segs.drop_first())
    }
}

/// A plain route answers its own path: where `route` (no parameters, not a
/// static mount, its path already normalized) is registered and recorded as a
/// plain route, looking its path up reaches its node with no captures and no
/// rewrite.
pub proof fn lemma_plain_route_lookup<H>(m: RouteMap<H>, route: Route<H>)
    requires
        m.wf(),
        !m.uses_trie(route),
        m.holds_route(route),
        m.plain_set().contains(route.path@),
        normalize(route.path@) == route.path@,
    ensures
        m.route_of(route.path@) == Some(
            (m.locate(route)->0, Seq::<Seq<char>>::empty(), None::<Seq<char>>),
        ),
{
}

proof fn lemma_descend_instance<H>(
    m: RouteMap<H>,
    n: int,
    keys: Seq<Seq<char>>,
    segs: Seq<Seq<char>>,
)
    requires
        instance_of(m, n, keys, segs),
    ensures
        m.walk(n, keys) matches Some(x) && m.descend(n, segs) == Some(
            (x, captured(keys, segs), None::<Seq<char>>),
        ),
    decreases keys.len(),
{
    if keys.len() > 0 {
        let c = m.kids(n)[keys[0]] as int;
        lemma_descend_instance(m, c, keys.drop_first(), segs.drop_first());
        if keys[0] == wildcard() {
            assert(seq![segs[0]] + captured(keys.drop_first(), segs.drop_first()) == captured(
                keys,
                segs,
            ));
        } else {
            assert(Seq::<Seq<char>>::empty() + captured(keys.drop_first(), segs.drop_first())
                =~= captured(keys, segs));
        }
    }
}

/// A parameterized route answers each concrete path of its shape: where the
/// keys `keys` lead from the root to node `x`, and the request path `raw`
/// (not a plain route) splits into segments that instantiate those keys
/// without meeting a literal sibling of a wildcard, lookup reaches `x` and
/// captures exactly the substituted segments, in order.
pub proof fn lemma_parameterized_route_lookup<H>(
    m: RouteMap<H>,
    keys: Seq<Seq<char>>,
    x: int,
    raw: Seq<char>,
)
    requires
        m.wf(),
        m.walk(0, keys) == Some(x),
        instance_of(m, 0, keys, segments(normalize(raw))),
        !m.plain_set().contains(normalize(raw)),
    ensures
        m.resolve(raw) == Some((x, captured(keys, segments(normalize(raw))), None::<Seq<char>>)),
{
    lemma_descend_instance(m, 0, keys, segments(normalize(raw)));
}

/// Routes of one shape must name their parameters alike: once route `a`,
/// kept in the tree, sits at node `n` with its parameter names, a route `b`
/// kept in the tree under the same keys with other names conflicts (and
/// registering it fails).
pub proof fn lemma_conflicting_names<H>(m: RouteMap<H>, a: Route<H>, b: Route<H>, n: int)
    requires
        m.uses_trie(a),
        m.uses_trie(b),
        m.locate(a) == Some(n),
        m.nodes()[n].path_parameters matches Some(d) && param_names(d@) == param_names(
            a.path_parameters@,
        ),
        m.route_keys(b) == m.route_keys(a),
        param_names(b.path_parameters@) != param_names(a.path_parameters@),
    ensures
        m.conflicts(b),
{
}

/// A literal child wins over the wildcard child: where node `n` has a child
/// under `seg`, descent on `seg` goes there, whatever wildcard child `n` has.
pub proof fn lemma_literal_first<H>(m: RouteMap<H>, n: int, seg: Seq<char>, rest: Seq<Seq<char>>)
    requires
        m.kids(n).contains_key(seg),
    ensures
        m.descend(n, seq![seg] + rest) == m.descend(m.kids(n)[seg] as int, rest),
{
    assert((seq![seg] + rest)[0] == seg);
    assert((seq![seg] + rest).drop_first() =~= rest);
}

proof fn lemma_trim_start_push(p: Seq<char>, c: char)
    requires
        p.len() > 0,
        !is_white(p.last()),
    ensures
        trim_start(p.push(c)) == trim_start(p).push(c),
        trim_start(p).len() > 0,
        trim_start(p).last() == p.last(),
    decreases p.len(),
{
    if is_white(p[0]) {
        assert(p.len() > 1);
        assert(p.push(c)[0] == p[0]);
        assert(p.push(c).drop_first() =~= p.drop_first().push(c));
        lemma_trim_start_push(p.drop_first(), c);
    } else {
        assert(p.push(c)[0] == p[0]);
    }
}

/// One trailing `/` does not change what a path resolves to, where the path
/// is not empty and does not already end in `/` or white space; `/` alone
/// stays `/`.
pub proof fn lemma_trailing_slash<H>(m: RouteMap<H>, p: Seq<char>)
    requires
        p.len() > 0,
        p.last() != '/',
        !is_white(p.last()),
    ensures
        normalize(p.push('/')) == normalize(p),
        m.resolve(p.push('/')) == m.resolve(p),
        normalize(seq!['/']) == seq!['/'],
{
    lemma_trim_start_push(p, '/');
    let t = trim_start(p);
    assert(trim_end(t.push('/')) == t.push('/'));
    assert(trim_end(t) == t);
    assert(trim(p.push('/')) == t.push('/'));
    assert(t.push('/').drop_last() =~= t);
    let r = seq!['/'];
    assert(trim_start(r) == r);
    assert(trim_end(r) == r);
}

} // verus!

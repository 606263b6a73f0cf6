//! Lists of `(key, value)` entries read as maps, later entries overriding earlier ones.

use vstd::prelude::*;

verus! {

/// `m` updated with the entries of `v`, in order.
pub open spec fn onto<V>(m: Map<Seq<char>, V>, v: Seq<(String, V)>) -> Map<Seq<char>, V>
    decreases v.len(),
{
    if v.len() == 0 {
        m
    } else {
        onto(m.insert(v[0].0@, v[0].1), v.drop_first())
    }
}

/// The map that the entries of `v` describe.
pub open spec fn key_map<V>(v: Seq<(String, V)>) -> Map<Seq<char>, V> {
    onto(Map::empty(), v)
}

/// No entry of `v` has key `k`.
pub open spec fn key_absent<V>(v: Seq<(String, V)>, k: Seq<char>) -> bool {
    forall|j: int| 0 <= j < v.len() ==> (#[trigger] v[j]).0@ != k
}

pub proof fn lemma_onto_absent<V>(m: Map<Seq<char>, V>, v: Seq<(String, V)>, k: Seq<char>)
    requires
        key_absent(v, k),
    ensures
        onto(m, v).contains_key(k) == m.contains_key(k),
        m.contains_key(k) ==> onto(m, v)[k] == m[k],
    decreases v.len(),
{
    if v.len() > 0 {
        assert(v[0].0@ != k);
        assert forall|j: int| 0 <= j < v.drop_first().len() implies (
        #[trigger] v.drop_first()[j]).0@ != k by {
            assert(v.drop_first()[j] == v[j + 1]);
        }
        lemma_onto_absent(m.insert(v[0].0@, v[0].1), v.drop_first(), k);
    }
}

pub proof fn lemma_onto_insert_absent<V>(
    m: Map<Seq<char>, V>,
    v: Seq<(String, V)>,
    k: Seq<char>,
    x: V,
)
    requires
        key_absent(v, k),
    ensures
        onto(m.insert(k, x), v) == onto(m, v).insert(k, x),
    decreases v.len(),
{
    if v.len() > 0 {
        assert(v[0].0@ != k);
        assert forall|j: int| 0 <= j < v.drop_first().len() implies (
        #[trigger] v.drop_first()[j]).0@ != k by {
            assert(v.drop_first()[j] == v[j + 1]);
        }
        assert(m.insert(k, x).insert(v[0].0@, v[0].1) =~= m.insert(v[0].0@, v[0].1).insert(k, x));
        lemma_onto_insert_absent(m.insert(v[0].0@, v[0].1), v.drop_first(), k, x);
    }
}

/// The entry at `i` is the last one with key `k`.
pub open spec fn last_with<V>(v: Seq<(String, V)>, i: int, k: Seq<char>) -> bool {
    &&& 0 <= i < v.len()
    &&& v[i].0@ == k
    &&& forall|j: int| i < j < v.len() ==> (#[trigger] v[j]).0@ != k
}

pub proof fn lemma_onto_last<V>(m: Map<Seq<char>, V>, v: Seq<(String, V)>, i: int, k: Seq<char>)
    requires
        last_with(v, i, k),
    ensures
        onto(m, v).contains_key(k),
        onto(m, v)[k] == v[i].1,
    decreases v.len(),
{
    let rest = v.drop_first();
    if i == 0 {
        assert forall|j: int| 0 <= j < rest.len() implies (#[trigger] rest[j]).0@ != k by {
            assert(rest[j] == v[j + 1]);
        }
        lemma_onto_absent(m.insert(v[0].0@, v[0].1), rest, k);
    } else {
        assert forall|j: int| i - 1 < j < rest.len() implies (#[trigger] rest[j]).0@ != k by {
            assert(rest[j] == v[j + 1]);
        }
        lemma_onto_last(m.insert(v[0].0@, v[0].1), rest, i - 1, k);
    }
}

pub proof fn lemma_onto_update_last<V>(
    m: Map<Seq<char>, V>,
    v: Seq<(String, V)>,
    i: int,
    e: (String, V),
)
    requires
        last_with(v, i, e.0@),
    ensures
        onto(m, v.update(i, e)) == onto(m, v).insert(e.0@, e.1),
    decreases v.len(),
{
    let k = e.0@;
    let w = v.update(i, e);
    let rest = v.drop_first();
    if i == 0 {
        assert(w.drop_first() =~= rest);
        assert forall|j: int| 0 <= j < rest.len() implies (#[trigger] rest[j]).0@ != k by {
            assert(rest[j] == v[j + 1]);
        }
        lemma_onto_insert_absent(m, rest, k, e.1);
        lemma_onto_insert_absent(m.insert(k, v[0].1), rest, k, e.1);
        assert(m.insert(k, v[0].1).insert(k, e.1) =~= m.insert(k, e.1));
    } else {
        assert(w.drop_first() =~= rest.update(i - 1, e));
        assert forall|j: int| i - 1 < j < rest.len() implies (#[trigger] rest[j]).0@ != k by {
            assert(rest[j] == v[j + 1]);
        }
        lemma_onto_update_last(m.insert(v[0].0@, v[0].1), rest, i - 1, e);
    }
}

pub proof fn lemma_onto_push<V>(m: Map<Seq<char>, V>, v: Seq<(String, V)>, e: (String, V))
    ensures
        onto(m, v.push(e)) == onto(m, v).insert(e.0@, e.1),
    decreases v.len(),
{
    if v.len() == 0 {
        assert(v.push(e)[0] == e);
        assert(v.push(e).drop_first() =~= Seq::<(String, V)>::empty());
        assert(onto(m.insert(e.0@, e.1), Seq::<(String, V)>::empty()) == m.insert(e.0@, e.1));
    } else {
        assert(v.push(e)[0] == v[0]);
        assert(v.push(e).drop_first() =~= v.drop_first().push(e));
        lemma_onto_push(m.insert(v[0].0@, v[0].1), v.drop_first(), e);
    }
}

/// The position of the last entry of `v` with key `k`, if any.
pub fn find_key<V>(v: &Vec<(String, V)>, k: &String) -> (r: Option<usize>)
    ensures
        r is None ==> key_absent(v@, k@),
        r matches Some(i) ==> last_with(v@, i as int, k@),
{
    let mut i: usize = v.len();
    while i > 0
        invariant
            i <= v@.len(),
            forall|j: int| i <= j < v@.len() ==> (#[trigger] v@[j]).0@ != k@,
        decreases i,
    {
        if v[i - 1].0 == *k {
            return Some(i - 1);
        }
        i -= 1;
    }
    None
}

/// Sets `k` to `x` in the entries `v`: the last entry with key `k` is replaced,
/// or a new entry is added.
pub fn set_entry<V>(v: &mut Vec<(String, V)>, k: String, x: V)
    ensures
        key_map(final(v)@) == key_map(old(v)@).insert(k@, x),
        forall|j: int|
            0 <= j < old(v)@.len() && (#[trigger] old(v)@[j]).0@ != k@ ==> final(v)@[j] == old(
                v,
            )@[j],
        old(v)@.len() <= final(v)@.len(),
{
    match find_key(v, &k) {
        Some(i) => {
            proof {
                lemma_onto_update_last(Map::empty(), v@, i as int, (k, x));
            }
            v.set(i, (k, x));
        },
        None => {
            proof {
                lemma_onto_push(Map::empty(), v@, (k, x));
            }
            v.push((k, x));
        },
    }
}

} // verus!

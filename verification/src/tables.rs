//! The concurrent maps the engine keeps its indices in.
//!
//! `dashmap::DashMap` is opaque to the verifier.  Each map the crate uses gets
//! a name for what it holds and one thin function per `DashMap` method; the
//! contracts of those functions are taken on trust from the `dashmap` sources.
//! All mutation goes through `&mut`, so a map is never changed behind the
//! back of a caller that still reasons about it.

use crate::arena::{widen, widened, Arena};
use dashmap::DashMap;
use vstd::prelude::*;

verus! {

/// `dashmap::DashMap`, carried as an opaque value.
#[verifier::external_type_specification]
#[verifier::external_body]
#[verifier::reject_recursive_types(K)]
#[verifier::reject_recursive_types(V)]
#[verifier::reject_recursive_types(S)]
pub struct ExDashMap<K, V, S>(DashMap<K, V, S>);

/// A rank window as a pool stores it: `(rank_min, rank_max, length, speed)`.
pub type Window = (u64, u64, u64, u64);

/// `l` enumerates the bindings of `m`: every item is a binding of `m`, no key
/// comes twice, and no binding is left out.  Nothing is said about the order.
pub open spec fn lists<K, V>(l: Seq<(K, V)>, m: Map<K, V>) -> bool {
    &&& forall|i: int| 0 <= i < l.len() ==> m.contains_pair((#[trigger] l[i]).0, l[i].1)
    &&& forall|i: int, j: int| 0 <= i < j < l.len() ==> (#[trigger] l[i]).0 != (#[trigger] l[j]).0
    &&& forall|k: K| #[trigger]
        m.contains_key(k) ==> exists|i: int| 0 <= i < l.len() && (#[trigger] l[i]).0 == k
}

/// Without its last item, an enumeration of `m` enumerates `m` without the
/// key of that item.
pub proof fn lemma_lists_drop_last<K, V>(l: Seq<(K, V)>, m: Map<K, V>)
    requires
        lists(l, m),
        l.len() > 0,
    ensures
        lists(l.drop_last(), m.remove(l.last().0)),
        m.contains_pair(l.last().0, l.last().1),
{
    let p = l.drop_last();
    let e = l.last();
    let ms = m.remove(e.0);
    assert(l[l.len() - 1] == e);
    assert forall|k: K| #[trigger] ms.contains_key(k) implies exists|i: int|
        0 <= i < p.len() && (#[trigger] p[i]).0 == k by {
        assert(m.contains_key(k));
        let i = choose|i: int| 0 <= i < l.len() && (#[trigger] l[i]).0 == k;
        assert(p[i] == l[i]);
    }
    assert forall|i: int| 0 <= i < p.len() implies ms.contains_pair((#[trigger] p[i]).0, p[i].1) by {
        assert(p[i] == l[i]);
        assert(l[i].0 != l[l.len() - 1].0);
    }
    assert forall|i: int, k: int| 0 <= i < k < p.len() implies (#[trigger] p[i]).0 != (
    #[trigger] p[k]).0 by {
        assert(p[i] == l[i]);
        assert(p[k] == l[k]);
    }
}

/// A map that has an enumeration is finite and has as many bindings as the
/// enumeration has items.
pub proof fn lemma_lists_len<K, V>(l: Seq<(K, V)>, m: Map<K, V>)
    requires
        lists(l, m),
    ensures
        m.dom().finite(),
        m.dom().len() == l.len(),
    decreases l.len(),
{
    if l.len() == 0 {
        assert(m.dom() =~= Set::empty());
    } else {
        lemma_lists_drop_last(l, m);
        let k = l.last().0;
        lemma_lists_len(l.drop_last(), m.remove(k));
        assert(m.dom() =~= m.remove(k).dom().insert(k));
    }
}

/// The items of `v` with each key taken by its characters.
pub open spec fn keyed<V>(v: Seq<(String, V)>) -> Seq<(Seq<char>, V)> {
    Seq::new(v.len(), |i: int| (v[i].0@, v[i].1))
}

/// The players a pool holds, keyed by player id.
pub uninterp spec fn pool_entries(m: DashMap<String, Window>) -> Map<Seq<char>, Window>;

/// `DashMap::new`: a fresh map holds nothing.
#[verifier::external_body]
pub(crate) fn pool_new() -> (m: DashMap<String, Window>)
    ensures
        pool_entries(m) == (Map::<Seq<char>, Window>::empty()),
{
    DashMap::new()
}

/// `DashMap::insert`: binds `id` to `w` and hands back the binding it replaced.
#[verifier::external_body]
pub(crate) fn pool_insert(m: &mut DashMap<String, Window>, id: String, w: Window) -> (prev: Option<Window>)
    ensures
        pool_entries(*final(m)) == pool_entries(*old(m)).insert(id@, w),
        prev == (if pool_entries(*old(m)).contains_key(id@) {
            Some(pool_entries(*old(m))[id@])
        } else {
            None
        }),
{
    m.insert(id, w)
}

/// `DashMap::remove`: drops the binding of `id`, if there is one, and hands
/// its value back.
#[verifier::external_body]
pub(crate) fn pool_remove(m: &mut DashMap<String, Window>, id: &str) -> (prev: Option<Window>)
    ensures
        pool_entries(*final(m)) == pool_entries(*old(m)).remove(id@),
        prev == (if pool_entries(*old(m)).contains_key(id@) {
            Some(pool_entries(*old(m))[id@])
        } else {
            None
        }),
{
    m.remove(id).map(|kv| kv.1)
}

/// `DashMap::alter_all`: puts in place of every value what `widen` makes of it.
#[verifier::external_body]
pub(crate) fn pool_widen_all(m: &mut DashMap<String, Window>)
    ensures
        pool_entries(*final(m)) == pool_entries(*old(m)).map_values(|w: Window| widened(w)),
{
    m.alter_all(|_, w| widen(w));
}

/// `DashMap::iter`: walks every binding once, in an order of the map's own
/// choosing; the bindings are copied out.
#[verifier::external_body]
pub(crate) fn pool_list(m: &DashMap<String, Window>) -> (out: Vec<(String, Window)>)
    ensures
        lists(keyed(out@), pool_entries(*m)),
{
    m.iter().map(|e| (e.key().clone(), *e.value())).collect()
}

/// What a state report says of one player: `(arena, coverage)`.
pub type Standing = (Seq<char>, u64);

/// The items of `v` as bindings from player to standing.
pub open spec fn standings(v: Seq<(String, String, u64)>) -> Seq<(Seq<char>, Standing)> {
    Seq::new(v.len(), |i: int| (v[i].0@, (v[i].1@, v[i].2)))
}

/// The standings a state report holds, keyed by player id.
pub uninterp spec fn info_entries(m: DashMap<String, (String, u64)>) -> Map<Seq<char>, Standing>;

/// `DashMap::new`: a fresh map holds nothing.
#[verifier::external_body]
pub(crate) fn info_new() -> (m: DashMap<String, (String, u64)>)
    ensures
        info_entries(m) == (Map::<Seq<char>, Standing>::empty()),
{
    DashMap::new()
}

/// `DashMap::insert`: binds `player` to `(arena, coverage)`, replacing an
/// earlier binding of `player`.
#[verifier::external_body]
pub(crate) fn info_insert(
    m: &mut DashMap<String, (String, u64)>,
    player: String,
    arena: String,
    coverage: u64,
)
    ensures
        info_entries(*final(m)) == info_entries(*old(m)).insert(player@, (arena@, coverage)),
{
    m.insert(player, (arena, coverage));
}

/// `DashMap::iter`: walks every binding once, in an order of the map's own
/// choosing; the bindings are copied out.
#[verifier::external_body]
pub(crate) fn info_list(m: &DashMap<String, (String, u64)>) -> (out: Vec<(String, String, u64)>)
    ensures
        lists(standings(out@), info_entries(*m)),
{
    m.iter().map(|e| (e.key().clone(), e.value().0.clone(), e.value().1)).collect()
}

/// The sessions that own players, keyed by player id.
pub uninterp spec fn sender_entries(m: DashMap<String, u64>) -> Map<Seq<char>, u64>;

/// `DashMap::new`: a fresh map holds nothing.
#[verifier::external_body]
pub(crate) fn senders_new() -> (m: DashMap<String, u64>)
    ensures
        sender_entries(m) == (Map::<Seq<char>, u64>::empty()),
{
    DashMap::new()
}

/// `DashMap::insert`: binds `player` to `session`, replacing an earlier
/// binding of `player`.
#[verifier::external_body]
pub(crate) fn senders_insert(m: &mut DashMap<String, u64>, player: String, session: u64)
    ensures
        sender_entries(*final(m)) == sender_entries(*old(m)).insert(player@, session),
{
    m.insert(player, session);
}

/// `DashMap::remove`: drops the binding of `player`, if there is one.
#[verifier::external_body]
pub(crate) fn senders_remove(m: &mut DashMap<String, u64>, player: &str)
    ensures
        sender_entries(*final(m)) == sender_entries(*old(m)).remove(player@),
{
    m.remove(player);
}

/// `DashMap::get`: the session bound to `player`, if there is one.
#[verifier::external_body]
pub(crate) fn senders_get(m: &DashMap<String, u64>, player: &str) -> (session: Option<u64>)
    ensures
        session == (if sender_entries(*m).contains_key(player@) {
            Some(sender_entries(*m)[player@])
        } else {
            None
        }),
{
    m.get(player).map(|r| *r.value())
}

/// `DashMap::iter`: walks every binding once, in an order of the map's own
/// choosing; the bindings are copied out.
#[verifier::external_body]
pub(crate) fn senders_list(m: &DashMap<String, u64>) -> (out: Vec<(String, u64)>)
    ensures
        lists(keyed(out@), sender_entries(*m)),
{
    m.iter().map(|e| (e.key().clone(), *e.value())).collect()
}

/// What a lobby holds of one pool: the seats of a match and the players
/// that wait, each with its window.
pub type Pool = (u64, Map<Seq<char>, Window>);

/// The pools of a lobby, keyed by pool name.
pub uninterp spec fn arena_entries(m: DashMap<String, (u64, Arena)>) -> Map<Seq<char>, Pool>;

/// `DashMap::new`: a fresh map holds nothing.
#[verifier::external_body]
pub(crate) fn arenas_new() -> (m: DashMap<String, (u64, Arena)>)
    ensures
        arena_entries(m) == (Map::<Seq<char>, Pool>::empty()),
{
    DashMap::new()
}

/// `DashMap::contains_key`: whether `name` is bound.
#[verifier::external_body]
pub(crate) fn arenas_contains(m: &DashMap<String, (u64, Arena)>, name: &str) -> (found: bool)
    ensures
        found == arena_entries(*m).contains_key(name@),
{
    m.contains_key(name)
}

/// `DashMap::insert`: binds `name` to `seats` and `arena`, replacing an
/// earlier binding of `name`.
#[verifier::external_body]
pub(crate) fn arenas_insert(
    m: &mut DashMap<String, (u64, Arena)>,
    name: String,
    seats: u64,
    arena: Arena,
)
    ensures
        arena_entries(*final(m)) == arena_entries(*old(m)).insert(name@, (seats, arena@)),
{
    m.insert(name, (seats, arena));
}

/// `DashMap::remove`: drops the binding of `name`, if there is one, and
/// hands back the key as the map held it and the value.
#[verifier::external_body]
pub(crate) fn arenas_remove(m: &mut DashMap<String, (u64, Arena)>, name: &str) -> (prev: Option<
    (String, u64, Arena),
>)
    ensures
        arena_entries(*final(m)) == arena_entries(*old(m)).remove(name@),
        match prev {
            Some(e) => arena_entries(*old(m)).contains_pair(name@, (e.1, e.2@)) && e.0@ == name@,
            None => !arena_entries(*old(m)).contains_key(name@),
        },
{
    m.remove(name).map(|kv| (kv.0, kv.1.0, kv.1.1))
}

/// `DashMap::iter`: walks every binding once, in an order of the map's own
/// choosing; the keys are copied out.
#[verifier::external_body]
pub(crate) fn arenas_names(m: &DashMap<String, (u64, Arena)>) -> (out: Vec<String>)
    ensures
        forall|i: int| 0 <= i < out.len() ==> arena_entries(*m).contains_key((#[trigger] out[i])@),
        forall|i: int, j: int| 0 <= i < j < out.len() ==> (#[trigger] out[i])@ != (#[trigger] out[j])@,
        forall|k: Seq<char>| #[trigger]
            arena_entries(*m).contains_key(k) ==> exists|i: int|
                0 <= i < out.len() && (#[trigger] out[i])@ == k,
{
    m.iter().map(|e| e.key().clone()).collect()
}

/// The parties of one match by the session that owns them.
pub uninterp spec fn group_entries(m: DashMap<u64, Vec<(String, u64)>>) -> Map<u64, Seq<(Seq<char>, u64)>>;

/// The items of `v` with each list of parties taken by its view.
pub open spec fn grouped(v: Seq<(u64, Vec<(String, u64)>)>) -> Seq<(u64, Seq<(Seq<char>, u64)>)> {
    Seq::new(v.len(), |i: int| (v[i].0, keyed(v[i].1@)))
}

/// `DashMap::new`: a fresh map holds nothing.
#[verifier::external_body]
pub(crate) fn groups_new() -> (m: DashMap<u64, Vec<(String, u64)>>)
    ensures
        group_entries(m) == (Map::<u64, Seq<(Seq<char>, u64)>>::empty()),
{
    DashMap::new()
}

/// `DashMap::remove`: drops the binding of `session`, if there is one, and
/// hands its value back.
#[verifier::external_body]
pub(crate) fn groups_remove(m: &mut DashMap<u64, Vec<(String, u64)>>, session: u64) -> (prev: Option<
    Vec<(String, u64)>,
>)
    ensures
        group_entries(*final(m)) == group_entries(*old(m)).remove(session),
        match prev {
            Some(v) => group_entries(*old(m)).contains_pair(session, keyed(v@)),
            None => !group_entries(*old(m)).contains_key(session),
        },
{
    m.remove(&session).map(|kv| kv.1)
}

/// `DashMap::insert`: binds `session` to `parties`, replacing an earlier
/// binding of `session`.
#[verifier::external_body]
pub(crate) fn groups_insert(
    m: &mut DashMap<u64, Vec<(String, u64)>>,
    session: u64,
    parties: Vec<(String, u64)>,
)
    ensures
        group_entries(*final(m)) == group_entries(*old(m)).insert(session, keyed(parties@)),
{
    m.insert(session, parties);
}

/// `DashMap::into_iter`: hands out every binding once, in an order of the
/// map's own choosing.
#[verifier::external_body]
pub(crate) fn groups_list(m: DashMap<u64, Vec<(String, u64)>>) -> (out: Vec<
    (u64, Vec<(String, u64)>),
>)
    ensures
        lists(grouped(out@), group_entries(m)),
{
    m.into_iter().collect()
}

} // verus!

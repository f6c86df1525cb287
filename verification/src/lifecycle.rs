//! What holds of a scene across its operations: the order of lifecycle hooks
//! within a frame, when entities are initialized, and the reuse of IDs.
use vstd::prelude::*;
use crate::entity::{CommandView, Hook};
use crate::id_order::{id_before, lemma_id_before_irreflexive};
use crate::scene::{
    lemma_apply_keeps,
    lemma_apply_one,
    all_ids,
    apply_entities,
    entity_of,
    apply_command,
    apply_commands,
    fresh_ids,
    frame_calls,
    has_id,
    ids_ascending,
    initialize_all,
    initialized_ids,
    insert_sorted,
    without_id,
    Entries,
};

verus! {

/// IDs strictly ascending.
pub open spec fn strictly_ascending(s: Seq<Seq<char>>) -> bool {
    forall|a: int, b: int| #![trigger s[a], s[b]] 0 <= a < b < s.len() ==> id_before(s[a], s[b])
}

/// The position of a hook in the lifecycle of one frame.
pub open spec fn hook_rank(h: Hook) -> int {
    match h {
        Hook::Start => 0,
        Hook::Ready => 1,
        Hook::Update => 2,
        Hook::Event => 3,
    }
}

/// The IDs that requests `cs` ask to spawn.
pub open spec fn spawn_requested<E>(cs: Seq<CommandView<E>>, k: Seq<char>) -> bool {
    exists|j: int| 0 <= j < cs.len() && spawns(#[trigger] cs[j], k)
}

/// The request asks to spawn `k`.
pub open spec fn spawns<E>(c: CommandView<E>, k: Seq<char>) -> bool {
    match c {
        CommandView::Spawn(id, _) => id == k,
        CommandView::Despawn(_) => false,
    }
}

proof fn lemma_fresh_ids_member(v: Entries, k: Seq<char>)
    ensures
        fresh_ids(v).contains(k) <==> exists|i: int| 0 <= i < v.len() && v[i].0 == k && !v[i].1,
    decreases v.len(),
{
    if v.len() > 0 {
        let w = v.drop_last();
        lemma_fresh_ids_member(w, k);
        if fresh_ids(v).contains(k) {
            if !v.last().1 && k == v.last().0 {
                assert(v[v.len() - 1].0 == k);
            } else {
                let a = choose|a: int| 0 <= a < fresh_ids(v).len() && fresh_ids(v)[a] == k;
                assert(fresh_ids(w)[a] == k);
                let i = choose|i: int| 0 <= i < w.len() && w[i].0 == k && !w[i].1;
                assert(v[i] == w[i]);
            }
        }
        if exists|i: int| 0 <= i < v.len() && v[i].0 == k && !v[i].1 {
            let i = choose|i: int| 0 <= i < v.len() && v[i].0 == k && !v[i].1;
            if i == v.len() - 1 {
                assert(fresh_ids(v)[fresh_ids(v).len() - 1] == k);
            } else {
                assert(w[i] == v[i]);
                let a = choose|a: int| 0 <= a < fresh_ids(w).len() && fresh_ids(w)[a] == k;
                assert(fresh_ids(v)[a] == k);
            }
        }
    }
}

proof fn lemma_fresh_ids_ascending(v: Entries)
    requires
        ids_ascending(v),
    ensures
        strictly_ascending(fresh_ids(v)),
    decreases v.len(),
{
    if v.len() > 0 {
        let w = v.drop_last();
        assert(ids_ascending(w)) by {
            assert forall|i: int, j: int| 0 <= i < j < w.len() implies id_before(
                #[trigger] w[i].0,
                #[trigger] w[j].0,
            ) by {
                assert(id_before(v[i].0, v[j].0));
            }
        }
        lemma_fresh_ids_ascending(w);
        if !v.last().1 {
            let f = fresh_ids(w);
            assert forall|a: int| 0 <= a < f.len() implies id_before(#[trigger] f[a], v.last().0) by {
                assert(f.contains(f[a]));
                lemma_fresh_ids_member(w, f[a]);
                let i = choose|i: int| 0 <= i < w.len() && w[i].0 == f[a] && !w[i].1;
                assert(id_before(v[i].0, v[v.len() - 1].0));
            }
            let g = fresh_ids(v);
            assert forall|a: int, b: int| 0 <= a < b < g.len() implies id_before(
                #[trigger] g[a],
                #[trigger] g[b],
            ) by {
                if b == g.len() - 1 {
                    assert(id_before(f[a], v.last().0));
                } else {
                    assert(id_before(f[a], f[b]));
                }
            }
        }
    }
}

proof fn lemma_all_ids_ascending(v: Entries)
    requires
        ids_ascending(v),
    ensures
        strictly_ascending(all_ids(v)),
{
    let s = all_ids(v);
    assert forall|a: int, b: int| 0 <= a < b < s.len() implies id_before(#[trigger] s[a], #[trigger] s[b]) by {
        assert(id_before(v[a].0, v[b].0));
    }
}

proof fn lemma_ascending_distinct(s: Seq<Seq<char>>, a: int, b: int)
    requires
        strictly_ascending(s),
        0 <= a < s.len(),
        0 <= b < s.len(),
        a != b,
    ensures
        s[a] != s[b],
{
    if a < b {
        assert(id_before(s[a], s[b]));
    } else {
        assert(id_before(s[b], s[a]));
    }
    lemma_id_before_irreflexive(s[a]);
}

/// Within one frame each entity meets each hook at most once, and in the
/// order start, ready, update; only entities whose initialization hooks
/// have not run are started or readied.
pub proof fn law_frame_order(v: Entries)
    requires
        ids_ascending(v),
    ensures
        forall|a: int, b: int|
            #![trigger frame_calls(v)[a], frame_calls(v)[b]]
            0 <= a < b < frame_calls(v).len() && frame_calls(v)[a].1 == frame_calls(v)[b].1
                ==> hook_rank(frame_calls(v)[a].0) < hook_rank(frame_calls(v)[b].0),
        forall|a: int|
            0 <= a < frame_calls(v).len() && (#[trigger] frame_calls(v)[a]).0 != Hook::Update
                ==> exists|i: int| 0 <= i < v.len() && v[i].0 == frame_calls(v)[a].1 && !v[i].1,
{
    let f = fresh_ids(v);
    let u = all_ids(v);
    let fc = frame_calls(v);
    lemma_fresh_ids_ascending(v);
    lemma_all_ids_ascending(v);
    let nf = f.len() as int;
    assert(fc.len() == 2 * nf + u.len());
    assert forall|a: int| 0 <= a < fc.len() implies #[trigger] fc[a] == if a < nf {
        (Hook::Start, f[a])
    } else if a < 2 * nf {
        (Hook::Ready, f[a - nf])
    } else {
        (Hook::Update, u[a - 2 * nf])
    } by {
    }
    assert forall|a: int, b: int|
        #![trigger fc[a], fc[b]]
        0 <= a < b < fc.len() && fc[a].1 == fc[b].1 implies hook_rank(fc[a].0) < hook_rank(
        fc[b].0,
    ) by {
        if b < nf {
            lemma_ascending_distinct(f, a, b);
        } else if a >= nf && b < 2 * nf {
            lemma_ascending_distinct(f, a - nf, b - nf);
        } else if a >= 2 * nf {
            lemma_ascending_distinct(u, a - 2 * nf, b - 2 * nf);
        }
    }
    assert forall|a: int|
        0 <= a < fc.len() && (#[trigger] fc[a]).0 != Hook::Update implies exists|i: int|
        0 <= i < v.len() && v[i].0 == fc[a].1 && !v[i].1 by {
        let x = if a < nf {
            a
        } else {
            a - nf
        };
        assert(f.contains(f[x]));
        lemma_fresh_ids_member(v, f[x]);
    }
}

/// A despawned ID is free again, so that spawning it succeeds.
pub proof fn law_despawn_frees_id(v: Entries, k: Seq<char>)
    requires
        ids_ascending(v),
    ensures
        !has_id(without_id(v, k), k),
    decreases v.len(),
{
    if v.len() > 0 {
        let w = v.drop_first();
        assert(ids_ascending(w)) by {
            assert forall|i: int, j: int| 0 <= i < j < w.len() implies id_before(
                #[trigger] w[i].0,
                #[trigger] w[j].0,
            ) by {
                assert(id_before(v[i + 1].0, v[j + 1].0));
            }
        }
        if v[0].0 == k {
            if has_id(w, k) {
                let i = choose|i: int| 0 <= i < w.len() && w[i].0 == k;
                assert(id_before(v[0].0, v[i + 1].0));
                lemma_id_before_irreflexive(k);
            }
        } else {
            law_despawn_frees_id(w, k);
            let r = without_id(v, k);
            if has_id(r, k) {
                let i = choose|i: int| 0 <= i < r.len() && r[i].0 == k;
                if i > 0 {
                    assert(without_id(w, k)[i - 1].0 == k);
                }
            }
        }
    }
}

proof fn lemma_initialized_ids_cons(e: (Seq<char>, bool), v: Entries)
    ensures
        initialized_ids(seq![e] + v) == if e.1 {
            seq![e.0] + initialized_ids(v)
        } else {
            initialized_ids(v)
        },
    decreases v.len(),
{
    let s = seq![e] + v;
    if v.len() == 0 {
        assert(s.drop_last() =~= Seq::<(Seq<char>, bool)>::empty());
        assert(initialized_ids(s.drop_last()) =~= Seq::<Seq<char>>::empty());
        if e.1 {
            assert(initialized_ids(s) =~= seq![e.0] + initialized_ids(v));
        } else {
            assert(initialized_ids(s) =~= initialized_ids(v));
        }
    } else {
        assert(s.drop_last() =~= seq![e] + v.drop_last());
        lemma_initialized_ids_cons(e, v.drop_last());
        if e.1 {
            assert(initialized_ids(s) =~= seq![e.0] + initialized_ids(v));
        } else {
            assert(initialized_ids(s) =~= initialized_ids(v));
        }
    }
}

/// A spawned entity is registered uninitialized: it is neither drawn nor
/// sent events before a frame has run its initialization hooks.
pub proof fn law_spawned_entity_waits(v: Entries, k: Seq<char>)
    requires
        !has_id(v, k),
    ensures
        has_id(insert_sorted(v, k), k),
        initialized_ids(insert_sorted(v, k)) == initialized_ids(v),
    decreases v.len(),
{
    if v.len() == 0 {
        assert(insert_sorted(v, k)[0].0 == k);
        assert(v =~= Seq::<(Seq<char>, bool)>::empty());
        lemma_initialized_ids_cons((k, false), v);
    } else if id_before(k, v[0].0) {
        assert(insert_sorted(v, k)[0].0 == k);
        lemma_initialized_ids_cons((k, false), v);
    } else {
        let w = v.drop_first();
        assert(!has_id(w, k)) by {
            if has_id(w, k) {
                let i = choose|i: int| 0 <= i < w.len() && w[i].0 == k;
                assert(v[i + 1].0 == k);
            }
        }
        law_spawned_entity_waits(w, k);
        let i = choose|i: int| 0 <= i < insert_sorted(w, k).len() && insert_sorted(w, k)[i].0 == k;
        assert(insert_sorted(v, k)[i + 1].0 == k);
        assert(v =~= seq![v[0]] + w);
        lemma_initialized_ids_cons(v[0], w);
        lemma_initialized_ids_cons(v[0], insert_sorted(w, k));
    }
}

proof fn lemma_insert_sorted_entries(v: Entries, k: Seq<char>, i: int)
    requires
        0 <= i < insert_sorted(v, k).len(),
    ensures
        insert_sorted(v, k)[i] == (k, false) || exists|j: int|
            0 <= j < v.len() && v[j] == #[trigger] insert_sorted(v, k)[i],
    decreases v.len(),
{
    if v.len() > 0 && !id_before(k, v[0].0) && i > 0 {
        let w = v.drop_first();
        lemma_insert_sorted_entries(w, k, i - 1);
        if insert_sorted(w, k)[i - 1] != (k, false) {
            let j = choose|j: int| 0 <= j < w.len() && w[j] == insert_sorted(w, k)[i - 1];
            assert(v[j + 1] == insert_sorted(v, k)[i]);
        }
    } else if v.len() > 0 && id_before(k, v[0].0) && i > 0 {
        assert(v[i - 1] == insert_sorted(v, k)[i]);
    } else if v.len() > 0 && !id_before(k, v[0].0) && i == 0 {
        assert(v[0] == insert_sorted(v, k)[0]);
    }
}

proof fn lemma_without_id_entries(v: Entries, k: Seq<char>, i: int)
    requires
        0 <= i < without_id(v, k).len(),
    ensures
        exists|j: int| 0 <= j < v.len() && v[j] == #[trigger] without_id(v, k)[i],
    decreases v.len(),
{
    let w = v.drop_first();
    if v[0].0 == k {
        assert(v[i + 1] == without_id(v, k)[i]);
    } else if i == 0 {
        assert(v[0] == without_id(v, k)[0]);
    } else {
        lemma_without_id_entries(w, k, i - 1);
        let j = choose|j: int| 0 <= j < w.len() && w[j] == without_id(w, k)[i - 1];
        assert(v[j + 1] == without_id(v, k)[i]);
    }
}

/// Every uninitialized entry left by requests `cs`, applied to entries
/// that were all initialized, was asked for by a spawn in `cs`.
proof fn lemma_fresh_only_from_spawns<E>(v: Entries, r: Seq<Seq<char>>, cs: Seq<CommandView<E>>)
    requires
        forall|i: int| 0 <= i < v.len() ==> (#[trigger] v[i]).1,
    ensures
        forall|i: int|
            0 <= i < apply_commands((v, r), cs).0.len() && !(#[trigger] apply_commands(
                (v, r),
                cs,
            ).0[i]).1 ==> spawn_requested(cs, apply_commands((v, r), cs).0[i].0),
    decreases cs.len(),
{
    if cs.len() > 0 {
        let ds = cs.drop_last();
        lemma_fresh_only_from_spawns(v, r, ds);
        let s = apply_commands((v, r), ds);
        let t = apply_commands((v, r), cs);
        assert(t == apply_command(s, cs.last()));
        assert forall|i: int| 0 <= i < t.0.len() && !(#[trigger] t.0[i]).1 implies spawn_requested(
            cs,
            t.0[i].0,
        ) by {
            match cs.last() {
                CommandView::Spawn(k, _) => {
                    if has_id(s.0, k) {
                        assert(spawn_requested(ds, s.0[i].0));
                        let m = choose|m: int|
                            0 <= m < ds.len() && spawns(#[trigger] ds[m], s.0[i].0);
                        assert(cs[m] == ds[m]);
                    } else {
                        lemma_insert_sorted_entries(s.0, k, i);
                        if t.0[i] == (k, false) {
                            assert(cs[cs.len() - 1] == cs.last());
                        } else {
                            let j = choose|j: int| 0 <= j < s.0.len() && s.0[j] == t.0[i];
                            assert(spawn_requested(ds, s.0[j].0));
                            let m = choose|m: int|
                                0 <= m < ds.len() && spawns(#[trigger] ds[m], s.0[j].0);
                            assert(cs[m] == ds[m]);
                        }
                    }
                },
                CommandView::Despawn(k) => {
                    let j = if has_id(s.0, k) {
                        lemma_without_id_entries(s.0, k, i);
                        choose|j: int| 0 <= j < s.0.len() && s.0[j] == t.0[i]
                    } else {
                        i
                    };
                    assert(spawn_requested(ds, s.0[j].0));
                    let m = choose|m: int|
                        0 <= m < ds.len() && spawns(#[trigger] ds[m], s.0[j].0);
                    assert(cs[m] == ds[m]);
                },
            }
        }
    }
}

/// An entity is initialized once: after a frame has run, the entities the
/// next frame starts and readies are exactly ones that requests queued in
/// between asked to spawn; a spawn request for an ID that is still
/// registered starts nothing.
pub proof fn law_initialized_once<E>(v: Entries, r: Seq<Seq<char>>, cs: Seq<CommandView<E>>)
    ensures
        forall|k: Seq<char>|
            #[trigger] fresh_ids(apply_commands((initialize_all(v), r), cs).0).contains(k)
                ==> spawn_requested(cs, k),
{
    let u = initialize_all(v);
    lemma_fresh_only_from_spawns(u, r, cs);
    assert forall|k: Seq<char>|
        #[trigger] fresh_ids(apply_commands((u, r), cs).0).contains(k) implies spawn_requested(
        cs,
        k,
    ) by {
        lemma_fresh_ids_member(apply_commands((u, r), cs).0, k);
    }
}

/// Despawn followed by spawn replaces an entity: the ID stays registered,
/// is recorded as removed, and its new entity runs its initialization hooks
/// again.
pub proof fn law_despawn_then_spawn_replaces<E>(v: Entries, r: Seq<Seq<char>>, k: Seq<char>, e: E)
    requires
        ids_ascending(v),
        has_id(v, k),
    ensures
        ({
            let after = apply_commands(
                (v, r),
                seq![CommandView::<E>::Despawn(k), CommandView::<E>::Spawn(k, e)],
            );
            &&& has_id(after.0, k)
            &&& fresh_ids(after.0).contains(k)
            &&& after.1 == r.push(k)
        }),
{
    let cs = seq![CommandView::<E>::Despawn(k), CommandView::<E>::Spawn(k, e)];
    assert(cs.drop_last().drop_last() =~= Seq::<CommandView<E>>::empty());
    assert(cs.drop_last().last() == CommandView::<E>::Despawn(k));
    assert(cs.last() == CommandView::<E>::Spawn(k, e));
    let w = without_id(v, k);
    law_despawn_frees_id(v, k);
    let c1 = cs.drop_last();
    assert(c1.drop_last() =~= Seq::<CommandView<E>>::empty());
    assert(apply_commands((v, r), c1.drop_last()) == (v, r));
    assert(c1.last() == CommandView::<E>::Despawn(k));
    assert(apply_commands((v, r), c1) == apply_command((v, r), CommandView::<E>::Despawn(k)));
    assert(apply_commands((v, r), c1) == (w, r.push(k)));
    assert(apply_commands((v, r), cs) == apply_command((w, r.push(k)), CommandView::<E>::Spawn(k, e)));
    law_spawned_entity_waits(w, k);
    let after = insert_sorted(w, k);
    lemma_insert_sorted_has_fresh(w, k);
    lemma_fresh_ids_member(after, k);
}

proof fn lemma_insert_sorted_has_fresh(v: Entries, k: Seq<char>)
    ensures
        exists|i: int| 0 <= i < insert_sorted(v, k).len() && insert_sorted(v, k)[i] == (k, false),
    decreases v.len(),
{
    if v.len() == 0 || id_before(k, v[0].0) {
        assert(insert_sorted(v, k)[0] == (k, false));
    } else {
        lemma_insert_sorted_has_fresh(v.drop_first(), k);
        let i = choose|i: int|
            0 <= i < insert_sorted(v.drop_first(), k).len() && insert_sorted(v.drop_first(), k)[i]
                == (k, false);
        assert(insert_sorted(v, k)[i + 1] == (k, false));
    }
}

/// A queued spawn never replaces a registered entity: when requests `cs`
/// are applied to ascending registrations `v` with entities `es`, an ID `k`
/// that is registered and that no request despawns keeps its entity, however
/// many spawns of `k` the requests hold.
pub proof fn law_queued_duplicate_spawn_ignored<E>(
    v: Entries,
    r: Seq<Seq<char>>,
    es: Seq<E>,
    cs: Seq<CommandView<E>>,
    k: Seq<char>,
)
    requires
        ids_ascending(v),
        es.len() == v.len(),
        has_id(v, k),
        forall|j: int| 0 <= j < cs.len() ==> #[trigger] cs[j] != CommandView::<E>::Despawn(k),
    ensures
        has_id(apply_commands((v, r), cs).0, k),
        entity_of(apply_commands((v, r), cs).0, apply_entities((v, r), es, cs), k) == entity_of(
            v,
            es,
            k,
        ),
{
    lemma_apply_keeps(v, r, es, cs, k);
}

/// A queued spawn of an ID that is not registered registers the spawned
/// entity under it, and a queued despawn leaves nothing registered under its
/// ID; either way the IDs stay in ascending order.
pub proof fn law_queued_request_applied<E>(
    v: Entries,
    r: Seq<Seq<char>>,
    es: Seq<E>,
    c: CommandView<E>,
)
    requires
        ids_ascending(v),
        es.len() == v.len(),
    ensures
        ids_ascending(apply_commands((v, r), seq![c]).0),
        c matches CommandView::Spawn(k, e) ==> !has_id(v, k) ==> entity_of(
            apply_commands((v, r), seq![c]).0,
            apply_entities((v, r), es, seq![c]),
            k,
        ) == Some(e),
        c matches CommandView::Despawn(k) ==> entity_of(
            apply_commands((v, r), seq![c]).0,
            apply_entities((v, r), es, seq![c]),
            k,
        ) is None,
{
    lemma_apply_one(v, r, es, c);
}

} // verus!

//! A collection of engine-owned game objects. Entities execute in string-ID
//! order for deterministic lifecycle ordering.
use vstd::prelude::*;
use crate::entity::{command_views, Command, CommandView, Entity, EntityContext, Hook};
use crate::id_order::{
    id_before,
    id_equals,
    id_precedes,
    lemma_id_before_asymmetric,
    lemma_id_before_irreflexive,
    lemma_id_before_total,
    lemma_id_before_transitive,
};

verus! {

/// The scene as a sequence of registrations: each ID with whether its
/// initialization hooks have run, in the order the scene runs them.
pub type Entries = Seq<(Seq<char>, bool)>;

pub open spec fn has_id(v: Entries, k: Seq<char>) -> bool {
    exists|i: int| 0 <= i < v.len() && v[i].0 == k
}

/// The position of a registration of `k`, where there is one.
pub open spec fn position_of(v: Entries, k: Seq<char>) -> int {
    choose|i: int| 0 <= i < v.len() && v[i].0 == k
}

/// IDs strictly ascending, hence also distinct.
pub open spec fn ids_ascending(v: Entries) -> bool {
    forall|i: int, j: int| #![trigger v[i], v[j]] 0 <= i < j < v.len() ==> id_before(v[i].0, v[j].0)
}

/// A new, uninitialized registration of `k` put in its place by ID order.
pub open spec fn insert_sorted(v: Entries, k: Seq<char>) -> Entries
    decreases v.len(),
{
    if v.len() == 0 {
        seq![(k, false)]
    } else if id_before(k, v[0].0) {
        seq![(k, false)] + v
    } else {
        seq![v[0]] + insert_sorted(v.drop_first(), k)
    }
}

/// The registrations without the one of `k`.
pub open spec fn without_id(v: Entries, k: Seq<char>) -> Entries
    decreases v.len(),
{
    if v.len() == 0 {
        v
    } else if v[0].0 == k {
        v.drop_first()
    } else {
        seq![v[0]] + without_id(v.drop_first(), k)
    }
}

/// One queued request applied to the registrations and the list of removed
/// IDs: a spawn of a present ID changes nothing, a despawn of an absent ID
/// changes nothing.
pub open spec fn apply_command<E>(s: (Entries, Seq<Seq<char>>), c: CommandView<E>) -> (
    Entries,
    Seq<Seq<char>>,
) {
    match c {
        CommandView::Spawn(k, _) => if has_id(s.0, k) {
            s
        } else {
            (insert_sorted(s.0, k), s.1)
        },
        CommandView::Despawn(k) => if has_id(s.0, k) {
            (without_id(s.0, k), s.1.push(k))
        } else {
            s
        },
    }
}

/// Queued requests applied in the order they were made.
pub open spec fn apply_commands<E>(s: (Entries, Seq<Seq<char>>), cs: Seq<CommandView<E>>) -> (
    Entries,
    Seq<Seq<char>>,
)
    decreases cs.len(),
{
    if cs.len() == 0 {
        s
    } else {
        apply_command(apply_commands(s, cs.drop_last()), cs.last())
    }
}

/// Where a new registration of `k` goes among registrations `v` kept in ID
/// order: before the first one whose ID comes after `k`.
pub open spec fn insert_position(v: Entries, k: Seq<char>) -> int
    decreases v.len(),
{
    if v.len() == 0 {
        0
    } else if id_before(k, v[0].0) {
        0
    } else {
        1 + insert_position(v.drop_first(), k)
    }
}

/// The entities, in registration order, once requests `cs` are applied to
/// registrations and removed IDs `s` with entities `es`: a spawned entity
/// goes where its ID belongs, a despawned one leaves.
pub open spec fn apply_entities<E>(
    s: (Entries, Seq<Seq<char>>),
    es: Seq<E>,
    cs: Seq<CommandView<E>>,
) -> Seq<E>
    decreases cs.len(),
{
    if cs.len() == 0 {
        es
    } else {
        let before = apply_commands(s, cs.drop_last()).0;
        let prev = apply_entities(s, es, cs.drop_last());
        match cs.last() {
            CommandView::Spawn(k, e) => if has_id(before, k) {
                prev
            } else {
                prev.insert(insert_position(before, k), e)
            },
            CommandView::Despawn(k) => if has_id(before, k) {
                prev.remove(position_of(before, k))
            } else {
                prev
            },
        }
    }
}

/// A hook of `Entity` with its argument.
pub enum Invocation<V, S> {
    Start,
    Ready,
    Event(V),
    Update(S),
}

/// Whether a pass of `c` over the scene calls the hook of a registration
/// whose initialization hooks have run (`initialized`) or not: `start` and
/// `ready` reach new ones, `event` initialized ones, `update` all.
pub open spec fn reaches<V, S>(c: Invocation<V, S>, initialized: bool) -> bool {
    match c {
        Invocation::Start => !initialized,
        Invocation::Ready => !initialized,
        Invocation::Event(_) => initialized,
        Invocation::Update(_) => true,
    }
}

/// The hook that `c` calls.
pub open spec fn invocation_hook<V, S>(c: Invocation<V, S>) -> Hook {
    match c {
        Invocation::Start => Hook::Start,
        Invocation::Ready => Hook::Ready,
        Invocation::Event(_) => Hook::Event,
        Invocation::Update(_) => Hook::Update,
    }
}

/// One hook call as it happened: the hook, the ID its context carried, the
/// entity before and after the call, and the requests it queued.
pub struct HookRecord<E> {
    pub hook: Hook,
    pub id: Seq<char>,
    pub before: E,
    pub after: E,
    pub queued: Seq<CommandView<E>>,
}

/// Whether the recorded call is an outcome that the hook `c` allows.
pub open spec fn allows<E: Entity>(c: Invocation<E::Event, E::Step>, r: HookRecord<E>) -> bool {
    match c {
        Invocation::Start => r.before.start_allows(r.id, r.after, r.queued),
        Invocation::Ready => r.before.ready_allows(r.id, r.after, r.queued),
        Invocation::Event(event) => r.before.event_allows(r.id, event, r.after, r.queued),
        Invocation::Update(step) => r.before.update_allows(r.id, step, r.after, r.queued),
    }
}

/// How many of the first `n` registrations of `v` a pass of `c` reaches.
pub open spec fn reached<V, S>(c: Invocation<V, S>, v: Entries, n: nat) -> nat
    decreases n,
{
    if n == 0 {
        0
    } else if reaches(c, v[n - 1].1) {
        reached(c, v, (n - 1) as nat) + 1
    } else {
        reached(c, v, (n - 1) as nat)
    }
}

/// The entities after a pass of `c` over the first `n` registrations of `v`,
/// from entities `es`, whose calls left the outcomes recorded in `rs`, one
/// per reached registration, in order.
pub open spec fn pass_entities<E: Entity>(
    c: Invocation<E::Event, E::Step>,
    v: Entries,
    es: Seq<E>,
    n: nat,
    rs: Seq<HookRecord<E>>,
) -> Seq<E>
    decreases n,
{
    if n == 0 {
        es
    } else if reaches(c, v[n - 1].1) {
        pass_entities(c, v, es, (n - 1) as nat, rs.drop_last()).update(n - 1, rs.last().after)
    } else {
        pass_entities(c, v, es, (n - 1) as nat, rs)
    }
}

/// Whether `rs` records, in order, the calls of a pass of `c` over the first
/// `n` registrations of `v` from entities `es`: one call on each registration
/// the pass reaches, with that registration's ID, on its entity as the pass
/// found it, with an outcome the hook allows.
pub open spec fn pass_recorded<E: Entity>(
    c: Invocation<E::Event, E::Step>,
    v: Entries,
    es: Seq<E>,
    n: nat,
    rs: Seq<HookRecord<E>>,
) -> bool
    decreases n,
{
    if n == 0 {
        rs.len() == 0
    } else if reaches(c, v[n - 1].1) {
        &&& rs.len() > 0
        &&& pass_recorded(c, v, es, (n - 1) as nat, rs.drop_last())
        &&& rs.last().hook == invocation_hook(c)
        &&& rs.last().id == v[n - 1].0
        &&& rs.last().before == pass_entities(c, v, es, (n - 1) as nat, rs.drop_last())[n - 1]
        &&& allows(c, rs.last())
    } else {
        pass_recorded(c, v, es, (n - 1) as nat, rs)
    }
}

/// The requests queued by the recorded calls, in call order.
pub open spec fn queued_by<E>(rs: Seq<HookRecord<E>>) -> Seq<CommandView<E>>
    decreases rs.len(),
{
    if rs.len() == 0 {
        Seq::empty()
    } else {
        queued_by(rs.drop_last()) + rs.last().queued
    }
}

/// Where the `ready` calls of a frame on registrations `v` begin in its
/// records, and where the `update` calls begin.
pub open spec fn frame_splits<E: Entity>(v: Entries) -> (nat, nat) {
    let a = reached(Invocation::<E::Event, E::Step>::Start, v, v.len());
    (a, a + reached(Invocation::<E::Event, E::Step>::Ready, v, v.len()))
}

/// The entities after the `start` and `ready` passes of a frame.
pub open spec fn initialized_entities<E: Entity>(v: Entries, es: Seq<E>, rs: Seq<HookRecord<E>>) -> Seq<E> {
    let (a, b) = frame_splits::<E>(v);
    let started = pass_entities(Invocation::Start, v, es, v.len(), rs.take(a as int));
    pass_entities(Invocation::Ready, v, started, v.len(), rs.subrange(a as int, b as int))
}

/// Whether `rs` records the hook calls of one frame on registrations `v`
/// with entities `es`: the `start` pass, then the `ready` pass, then the
/// `update` pass with `step`.
pub open spec fn frame_recorded<E: Entity>(v: Entries, es: Seq<E>, step: E::Step, rs: Seq<HookRecord<E>>) -> bool {
    let (a, b) = frame_splits::<E>(v);
    &&& b <= rs.len()
    &&& pass_recorded(Invocation::Start, v, es, v.len(), rs.take(a as int))
    &&& pass_recorded(
        Invocation::Ready,
        v,
        pass_entities(Invocation::Start, v, es, v.len(), rs.take(a as int)),
        v.len(),
        rs.subrange(a as int, b as int),
    )
    &&& pass_recorded(
        Invocation::Update(step),
        v,
        initialized_entities(v, es, rs),
        v.len(),
        rs.skip(b as int),
    )
}

/// The entities after one frame whose hook calls are recorded in `rs`.
pub open spec fn frame_entities<E: Entity>(v: Entries, es: Seq<E>, step: E::Step, rs: Seq<HookRecord<E>>) -> Seq<E> {
    let (a, b) = frame_splits::<E>(v);
    pass_entities(
        Invocation::Update(step),
        v,
        initialized_entities(v, es, rs),
        v.len(),
        rs.skip(b as int),
    )
}

proof fn lemma_pass_recorded_len<E: Entity>(
    c: Invocation<E::Event, E::Step>,
    v: Entries,
    es: Seq<E>,
    n: nat,
    rs: Seq<HookRecord<E>>,
)
    requires
        pass_recorded(c, v, es, n, rs),
    ensures
        rs.len() == reached(c, v, n),
    decreases n,
{
    if n > 0 {
        if reaches(c, v[n - 1].1) {
            lemma_pass_recorded_len(c, v, es, (n - 1) as nat, rs.drop_last());
        } else {
            lemma_pass_recorded_len(c, v, es, (n - 1) as nat, rs);
        }
    }
}

proof fn lemma_queued_by_append<E>(a: Seq<HookRecord<E>>, b: Seq<HookRecord<E>>)
    ensures
        queued_by(a + b) == queued_by(a) + queued_by(b),
    decreases b.len(),
{
    if b.len() == 0 {
        assert(a + b =~= a);
        assert(queued_by(a) + queued_by(b) =~= queued_by(a));
    } else {
        lemma_queued_by_append(a, b.drop_last());
        assert((a + b).drop_last() =~= a + b.drop_last());
        assert(queued_by(a) + (queued_by(b.drop_last()) + b.last().queued) =~= (queued_by(a)
            + queued_by(b.drop_last())) + b.last().queued);
    }
}

/// The IDs, in order, of the registrations whose initialization hooks have not run.
pub open spec fn fresh_ids(v: Entries) -> Seq<Seq<char>>
    decreases v.len(),
{
    if v.len() == 0 {
        Seq::empty()
    } else if !v.last().1 {
        fresh_ids(v.drop_last()).push(v.last().0)
    } else {
        fresh_ids(v.drop_last())
    }
}

/// The IDs, in order, of the registrations whose initialization hooks have run.
pub open spec fn initialized_ids(v: Entries) -> Seq<Seq<char>>
    decreases v.len(),
{
    if v.len() == 0 {
        Seq::empty()
    } else if v.last().1 {
        initialized_ids(v.drop_last()).push(v.last().0)
    } else {
        initialized_ids(v.drop_last())
    }
}

pub open spec fn all_ids(v: Entries) -> Seq<Seq<char>> {
    v.map_values(|e: (Seq<char>, bool)| e.0)
}

/// One hook invoked on each of `ids`, in order.
pub open spec fn calls(hook: Hook, ids: Seq<Seq<char>>) -> Seq<(Hook, Seq<char>)> {
    ids.map_values(|k: Seq<char>| (hook, k))
}

/// The hooks one frame invokes on registrations `v`: `start` on every new
/// one, then `ready` on every new one, then `update` on all, each pass in ID
/// order.
pub open spec fn frame_calls(v: Entries) -> Seq<(Hook, Seq<char>)> {
    calls(Hook::Start, fresh_ids(v)) + calls(Hook::Ready, fresh_ids(v)) + calls(
        Hook::Update,
        all_ids(v),
    )
}

/// Every registration marked as initialized.
pub open spec fn initialize_all(v: Entries) -> Entries {
    v.map_values(|e: (Seq<char>, bool)| (e.0, true))
}

proof fn lemma_insert_sorted_at(v: Entries, k: Seq<char>, p: int)
    requires
        0 <= p <= v.len(),
        forall|j: int| 0 <= j < p ==> id_before(#[trigger] v[j].0, k),
        forall|j: int| p <= j < v.len() ==> id_before(k, #[trigger] v[j].0),
    ensures
        insert_sorted(v, k) == v.insert(p, (k, false)),
        insert_position(v, k) == p,
    decreases v.len(),
{
    if v.len() == 0 {
        assert(v.insert(p, (k, false)) =~= seq![(k, false)]);
    } else if p == 0 {
        assert(id_before(k, v[0].0));
        assert(v.insert(0, (k, false)) =~= seq![(k, false)] + v);
    } else {
        assert(id_before(v[0].0, k));
        lemma_id_before_asymmetric(v[0].0, k);
        let w = v.drop_first();
        assert forall|j: int| 0 <= j < p - 1 implies id_before(#[trigger] w[j].0, k) by {
            assert(w[j] == v[j + 1]);
        }
        assert forall|j: int| p - 1 <= j < w.len() implies id_before(k, #[trigger] w[j].0) by {
            assert(w[j] == v[j + 1]);
        }
        lemma_insert_sorted_at(w, k, p - 1);
        assert(seq![v[0]] + w.insert(p - 1, (k, false)) =~= v.insert(p, (k, false)));
    }
}

proof fn lemma_without_id_at(v: Entries, k: Seq<char>, p: int)
    requires
        0 <= p < v.len(),
        v[p].0 == k,
        forall|j: int| 0 <= j < p ==> (#[trigger] v[j].0) != k,
    ensures
        without_id(v, k) == v.remove(p),
    decreases v.len(),
{
    if p == 0 {
        assert(v.remove(0) =~= v.drop_first());
    } else {
        let w = v.drop_first();
        assert forall|j: int| 0 <= j < p - 1 implies (#[trigger] w[j].0) != k by {
            assert(w[j] == v[j + 1]);
        }
        assert(w[p - 1] == v[p]);
        lemma_without_id_at(w, k, p - 1);
        assert(seq![v[0]] + w.remove(p - 1) =~= v.remove(p));
    }
}

/// Where one registration `k` stands at `p` of ascending IDs, every other ID
/// before `p` comes before `k` and every one after comes after it.
proof fn lemma_ascending_split(v: Entries, p: int)
    requires
        ids_ascending(v),
        0 <= p < v.len(),
    ensures
        forall|j: int| 0 <= j < v.len() && j != p ==> (#[trigger] v[j].0) != v[p].0,
{
    assert forall|j: int| 0 <= j < v.len() && j != p implies (#[trigger] v[j].0) != v[p].0 by {
        if j < p {
            assert(id_before(v[j].0, v[p].0));
        } else {
            assert(id_before(v[p].0, v[j].0));
        }
        lemma_id_before_irreflexive(v[p].0);
    }
}

/// The registration of an entity leaves every other lookup as it was.
proof fn lemma_lookup_after_insert<E>(before: Scene<E>, after: Scene<E>, p: int, k: Seq<char>, e: E)
    requires
        before.wf(),
        after.wf(),
        0 <= p <= before@.len(),
        after@ == before@.insert(p, (k, false)),
        after.entities() == before.entities().insert(p, e),
    ensures
        after.lookup(k) == Some(e),
        forall|j: Seq<char>| j != k ==> after.lookup(j) == before.lookup(j),
{
    after.lemma_lookup_at(p);
    assert forall|j: Seq<char>| j != k implies after.lookup(j) == before.lookup(j) by {
        if has_id(before@, j) {
            let i = position_of(before@, j);
            before.lemma_lookup_at(i);
            let q = if i < p { i } else { i + 1 };
            assert(after@[q] == before@[i]);
            after.lemma_lookup_at(q);
        } else if has_id(after@, j) {
            let q = position_of(after@, j);
            let i = if q < p { q } else { q - 1 };
            assert(before@[i] == after@[q]);
        }
    }
}

/// The removal of an entity leaves every other lookup as it was.
proof fn lemma_lookup_after_remove<E>(before: Scene<E>, after: Scene<E>, p: int)
    requires
        before.wf(),
        after.wf(),
        0 <= p < before@.len(),
        after@ == before@.remove(p),
        after.entities() == before.entities().remove(p),
    ensures
        after.lookup(before@[p].0) is None,
        forall|j: Seq<char>| j != before@[p].0 ==> after.lookup(j) == before.lookup(j),
{
    let k = before@[p].0;
    lemma_ascending_split(before@, p);
    before.lemma_lookup_at(p);
    if has_id(after@, k) {
        let q = position_of(after@, k);
        let i = if q < p { q } else { q + 1 };
        assert(before@[i] == after@[q]);
    }
    assert forall|j: Seq<char>| j != k implies after.lookup(j) == before.lookup(j) by {
        if has_id(before@, j) {
            let i = position_of(before@, j);
            before.lemma_lookup_at(i);
            assert(i != p);
            let q = if i < p { i } else { i - 1 };
            assert(after@[q] == before@[i]);
            after.lemma_lookup_at(q);
        } else if has_id(after@, j) {
            let q = position_of(after@, j);
            let i = if q < p { q } else { q + 1 };
            assert(before@[i] == after@[q]);
        }
    }
}

proof fn lemma_calls_push(hook: Hook, ids: Seq<Seq<char>>, k: Seq<char>)
    ensures
        calls(hook, ids.push(k)) == calls(hook, ids).push((hook, k)),
{
    assert(calls(hook, ids.push(k)) =~= calls(hook, ids).push((hook, k)));
}

proof fn lemma_command_views_append<E>(a: Seq<Command<E>>, b: Seq<Command<E>>)
    ensures
        command_views(a + b) == command_views(a) + command_views(b),
{
    assert(command_views(a + b) =~= command_views(a) + command_views(b));
}

/// Registered entities, queued requests, and the IDs removed since they were
/// last taken.
pub struct Scene<E> {
    ids: Vec<String>,
    initialized: Vec<bool>,
    entities: Vec<E>,
    commands: Vec<Command<E>>,
    removed: Vec<String>,
    log: Ghost<Seq<HookRecord<E>>>,
}

impl<E> View for Scene<E> {
    type V = Entries;

    closed spec fn view(&self) -> Entries {
        Seq::new(self.ids@.len(), |i: int| (self.ids@[i]@, self.initialized@[i]))
    }
}

impl<E> Default for Scene<E> {
    fn default() -> (s: Self)
        ensures
            s.wf(),
            s@ == Seq::<(Seq<char>, bool)>::empty(),
            s.pending() == Seq::<CommandView<E>>::empty(),
            s.removed() == Seq::<Seq<char>>::empty(),
            s.hook_log() == Seq::<(Hook, Seq<char>)>::empty(),
            s.records() == Seq::<HookRecord<E>>::empty(),
    {
        let s = Scene {
            ids: Vec::new(),
            initialized: Vec::new(),
            entities: Vec::new(),
            commands: Vec::new(),
            removed: Vec::new(),
            log: Ghost(Seq::empty()),
        };
        proof {
            assert(s@ =~= Seq::<(Seq<char>, bool)>::empty());
            assert(s.pending() =~= Seq::<CommandView<E>>::empty());
            assert(s.removed() =~= Seq::<Seq<char>>::empty());
            assert(s.hook_log() =~= Seq::<(Hook, Seq<char>)>::empty());
        }
        s
    }
}

impl<E> Scene<E> {
    /// The registered entities, in the order of `self@`.
    pub closed spec fn entities(&self) -> Seq<E> {
        self.entities@
    }

    /// Requests queued by hooks, to be applied at the start of the next frame.
    pub closed spec fn pending(&self) -> Seq<CommandView<E>> {
        command_views(self.commands@)
    }

    /// IDs removed since they were last taken, in removal order.
    pub closed spec fn removed(&self) -> Seq<Seq<char>> {
        self.removed@.map_values(|s: String| s@)
    }

    /// Every hook call so far, as it happened, in order.
    pub closed spec fn records(&self) -> Seq<HookRecord<E>> {
        self.log@
    }

    /// Every hook invoked so far, with the ID its context carried, in order.
    pub closed spec fn hook_log(&self) -> Seq<(Hook, Seq<char>)> {
        self.log@.map_values(|r: HookRecord<E>| (r.hook, r.id))
    }

    pub closed spec fn wf(&self) -> bool {
        &&& self.initialized@.len() == self.ids@.len()
        &&& self.entities@.len() == self.ids@.len()
        &&& ids_ascending(self@)
    }

    /// The entity registered under `k`.
    pub open spec fn lookup(&self, k: Seq<char>) -> Option<E> {
        if has_id(self@, k) {
            Some(self.entities()[position_of(self@, k)])
        } else {
            None
        }
    }

    pub proof fn lemma_lookup_at(&self, n: int)
        requires
            self.wf(),
            0 <= n < self@.len(),
        ensures
            self.lookup(self@[n].0) == Some(self.entities()[n]),
            self.entities().len() == self@.len(),
    {
        let k = self@[n].0;
        assert(has_id(self@, k));
        let j = position_of(self@, k);
        if j < n {
            assert(id_before(self@[j].0, self@[n].0));
            lemma_id_before_irreflexive(k);
        } else if n < j {
            assert(id_before(self@[n].0, self@[j].0));
            lemma_id_before_irreflexive(k);
        }
    }

    /// The registrations of a scene are kept in strictly ascending ID order.
    pub proof fn lemma_ids_ascending(&self)
        requires
            self.wf(),
        ensures
            ids_ascending(self@),
    {
    }

    proof fn lemma_view_index(&self, i: int)
        requires
            0 <= i < self.ids@.len(),
        ensures
            self@[i] == (self.ids@[i]@, self.initialized@[i]),
            self@.len() == self.ids@.len(),
    {
    }

    /// The position of `id`, if it is registered.
    fn find(&self, id: &str) -> (r: Option<usize>)
        requires
            self.wf(),
        ensures
            r is None <==> !has_id(self@, id@),
            r matches Some(i) ==> i < self@.len() && self@[i as int].0 == id@,
    {
        let n = self.ids.len();
        let mut i: usize = 0;
        while i < n
            invariant
                self.wf(),
                n == self@.len(),
                i <= n,
                forall|j: int| 0 <= j < i ==> self@[j].0 != id@,
            decreases n - i,
        {
            proof {
                self.lemma_view_index(i as int);
            }
            if id_equals(self.ids[i].as_str(), id) {
                return Some(i);
            }
            i = i + 1;
        }
        None
    }

    /// Registers `entity` under `id` unless the ID is taken.
    fn insert(&mut self, id: String, entity: E) -> (added: bool)
        requires
            old(self).wf(),
        ensures
            final(self).wf(),
            added == !has_id(old(self)@, id@),
            added ==> final(self)@ == insert_sorted(old(self)@, id@),
            added ==> final(self).entities() == old(self).entities().insert(
                insert_position(old(self)@, id@),
                entity,
            ),
            !added ==> final(self)@ == old(self)@,
            !added ==> final(self).entities() == old(self).entities(),
            final(self).lookup(id@) == if added {
                Some(entity)
            } else {
                old(self).lookup(id@)
            },
            forall|k: Seq<char>| k != id@ ==> final(self).lookup(k) == old(self).lookup(k),
            final(self).pending() == old(self).pending(),
            final(self).removed() == old(self).removed(),
            final(self).hook_log() == old(self).hook_log(),
            final(self).records() == old(self).records(),
    {
        let n = self.ids.len();
        let mut p: usize = 0;
        while p < n && id_precedes(self.ids[p].as_str(), id.as_str())
            invariant
                self.wf(),
                n == self@.len(),
                p <= n,
                forall|j: int| 0 <= j < p ==> id_before(#[trigger] self@[j].0, id@),
            decreases n - p,
        {
            proof {
                self.lemma_view_index(p as int);
            }
            p = p + 1;
        }
        proof {
            if p < n {
                self.lemma_view_index(p as int);
            }
        }
        if p < n && self.ids[p] == id {
            return false;
        }
        let ghost v = self@;
        proof {
            assert forall|j: int| p <= j < n implies id_before(id@, #[trigger] v[j].0) by {
                lemma_id_before_total(v[p as int].0, id@);
                if j > p {
                    assert(id_before(v[p as int].0, v[j].0));
                    lemma_id_before_transitive(id@, v[p as int].0, v[j].0);
                }
            }
            assert forall|j: int| 0 <= j < n implies (#[trigger] v[j].0) != id@ by {
                lemma_id_before_irreflexive(id@);
            }
            lemma_insert_sorted_at(v, id@, p as int);
        }
        let ghost before = *self;
        self.ids.insert(p, id);
        self.initialized.insert(p, false);
        self.entities.insert(p, entity);
        proof {
            let w = v.insert(p as int, (id@, false));
            assert(self@ =~= w);
            assert forall|i: int, j: int| 0 <= i < j < w.len() implies id_before(
                #[trigger] w[i].0,
                #[trigger] w[j].0,
            ) by {
                if j < p {
                    assert(id_before(v[i].0, v[j].0));
                } else if j == p {
                } else if i < p {
                    assert(id_before(v[i].0, id@));
                    lemma_id_before_transitive(v[i].0, id@, v[j - 1].0);
                } else if i == p {
                } else {
                    assert(id_before(v[i - 1].0, v[j - 1].0));
                }
            }
            lemma_lookup_after_insert(before, *self, p as int, id@, entity);
        }
        true
    }

    /// Returns false for an existing ID; never silently replaces an entity.
    pub fn spawn(&mut self, id: &str, entity: E) -> (added: bool)
        requires
            old(self).wf(),
        ensures
            final(self).wf(),
            added == !has_id(old(self)@, id@),
            added ==> final(self)@ == insert_sorted(old(self)@, id@),
            added ==> final(self).entities() == old(self).entities().insert(
                insert_position(old(self)@, id@),
                entity,
            ),
            !added ==> final(self)@ == old(self)@,
            !added ==> final(self).entities() == old(self).entities(),
            final(self).lookup(id@) == if added {
                Some(entity)
            } else {
                old(self).lookup(id@)
            },
            forall|k: Seq<char>| k != id@ ==> final(self).lookup(k) == old(self).lookup(k),
            final(self).pending() == old(self).pending(),
            final(self).removed() == old(self).removed(),
            final(self).hook_log() == old(self).hook_log(),
            final(self).records() == old(self).records(),
    {
        self.insert(id.to_owned(), entity)
    }

    /// Removes the entity `id` and records its ID as removed; false when
    /// there is none.
    pub fn despawn(&mut self, id: &str) -> (removed: bool)
        requires
            old(self).wf(),
        ensures
            final(self).wf(),
            removed == has_id(old(self)@, id@),
            removed ==> final(self)@ == without_id(old(self)@, id@),
            removed ==> final(self).removed() == old(self).removed().push(id@),
            removed ==> final(self).entities() == old(self).entities().remove(
                position_of(old(self)@, id@),
            ),
            !removed ==> final(self)@ == old(self)@ && final(self).removed() == old(self).removed(),
            !removed ==> final(self).entities() == old(self).entities(),
            final(self).lookup(id@) is None,
            forall|k: Seq<char>| k != id@ ==> final(self).lookup(k) == old(self).lookup(k),
            final(self).pending() == old(self).pending(),
            final(self).hook_log() == old(self).hook_log(),
            final(self).records() == old(self).records(),
    {
        match self.find(id) {
            None => {
                proof {
                    if old(self).lookup(id@) is Some {
                        assert(has_id(self@, id@));
                    }
                }
                false
            },
            Some(p) => {
                let ghost v = self@;
                let ghost before = *self;
                proof {
                    lemma_ascending_split(v, p as int);
                    lemma_without_id_at(v, id@, p as int);
                    assert(has_id(v, id@));
                    assert(position_of(v, id@) == p);
                }
                self.ids.remove(p);
                self.initialized.remove(p);
                self.entities.remove(p);
                self.removed.push(id.to_owned());
                proof {
                    assert(self@ =~= v.remove(p as int));
                    assert forall|i: int, j: int| 0 <= i < j < self@.len() implies id_before(
                        #[trigger] self@[i].0,
                        #[trigger] self@[j].0,
                    ) by {
                        let i0 = if i < p { i } else { i + 1 };
                        let j0 = if j < p { j } else { j + 1 };
                        assert(id_before(v[i0].0, v[j0].0));
                    }
                    assert(self.removed() =~= before.removed().push(id@));
                    lemma_lookup_after_remove(before, *self, p as int);
                }
                true
            },
        }
    }

    /// A mutable borrow of the entity registered under `id`.
    pub fn get_mut(&mut self, id: &str) -> (r: Option<&mut E>)
        requires
            old(self).wf(),
        ensures
            final(self).wf(),
            final(self)@ == old(self)@,
            final(self).pending() == old(self).pending(),
            final(self).removed() == old(self).removed(),
            final(self).hook_log() == old(self).hook_log(),
            final(self).records() == old(self).records(),
            match r {
                Some(e) => {
                    &&& old(self).lookup(id@) == Some(*e)
                    &&& final(self).entities() == old(self).entities().update(
                        position_of(old(self)@, id@),
                        *final(e),
                    )
                },
                None => {
                    &&& old(self).lookup(id@) is None
                    &&& final(self).entities() == old(self).entities()
                },
            },
    {
        match self.find(id) {
            Some(i) => {
                proof {
                    self.lemma_lookup_at(i as int);
                    lemma_ascending_split(self@, i as int);
                }
                Some(&mut self.entities[i])
            },
            None => None,
        }
    }

    /// Hands over the IDs removed since the last call, in removal order.
    pub fn take_removed(&mut self) -> (r: Vec<String>)
        requires
            old(self).wf(),
        ensures
            final(self).wf(),
            r@.map_values(|s: String| s@) == old(self).removed(),
            final(self).removed() == Seq::<Seq<char>>::empty(),
            final(self)@ == old(self)@,
            final(self).entities() == old(self).entities(),
            final(self).pending() == old(self).pending(),
            final(self).hook_log() == old(self).hook_log(),
            final(self).records() == old(self).records(),
    {
        let mut r: Vec<String> = Vec::new();
        std::mem::swap(&mut r, &mut self.removed);
        proof {
            assert(self.removed() =~= Seq::<Seq<char>>::empty());
        }
        r
    }

    /// Every registered entity with its ID, in ID order.
    pub fn iter(&self) -> (r: Vec<(&str, &E)>)
        requires
            self.wf(),
        ensures
            r@.len() == self@.len(),
            forall|i: int|
                0 <= i < r@.len() ==> (#[trigger] r@[i]).0@ == self@[i].0 && *r@[i].1
                    == self.entities()[i],
    {
        let n = self.ids.len();
        let mut r: Vec<(&str, &E)> = Vec::new();
        let mut i: usize = 0;
        while i < n
            invariant
                self.wf(),
                n == self@.len(),
                i <= n,
                r@.len() == i,
                forall|j: int|
                    0 <= j < i ==> (#[trigger] r@[j]).0@ == self@[j].0 && *r@[j].1
                        == self.entities()[j],
            decreases n - i,
        {
            proof {
                self.lemma_view_index(i as int);
            }
            r.push((self.ids[i].as_str(), &self.entities[i]));
            i = i + 1;
        }
        r
    }

    /// The entities whose initialization hooks have run, with their IDs, in
    /// ID order: the ones the engine draws.
    pub fn renderables(&self) -> (r: Vec<(&str, &E)>)
        requires
            self.wf(),
        ensures
            r@.map_values(|p: (&str, &E)| p.0@) == initialized_ids(self@),
            forall|i: int|
                0 <= i < r@.len() ==> self.lookup((#[trigger] r@[i]).0@) == Some(*r@[i].1),
    {
        let n = self.ids.len();
        let mut r: Vec<(&str, &E)> = Vec::new();
        let mut i: usize = 0;
        while i < n
            invariant
                self.wf(),
                n == self@.len(),
                i <= n,
                r@.map_values(|p: (&str, &E)| p.0@) == initialized_ids(self@.take(i as int)),
                forall|j: int|
                    0 <= j < r@.len() ==> self.lookup((#[trigger] r@[j]).0@) == Some(*r@[j].1),
            decreases n - i,
        {
            proof {
                self.lemma_view_index(i as int);
                self.lemma_lookup_at(i as int);
                assert(self@.take(i + 1).drop_last() =~= self@.take(i as int));
            }
            if self.initialized[i] {
                let ghost before = r@;
                r.push((self.ids[i].as_str(), &self.entities[i]));
                proof {
                    assert(r@.map_values(|p: (&str, &E)| p.0@) =~= before.map_values(
                        |p: (&str, &E)| p.0@,
                    ).push(self@[i as int].0));
                }
            }
            i = i + 1;
        }
        proof {
            assert(self@.take(n as int) =~= self@);
        }
        r
    }

    pub fn contains(&self, id: &str) -> (r: bool)
        requires
            self.wf(),
        ensures
            r == has_id(self@, id@),
    {
        self.find(id).is_some()
    }

    pub fn get(&self, id: &str) -> (r: Option<&E>)
        requires
            self.wf(),
        ensures
            match r {
                Some(e) => self.lookup(id@) == Some(*e),
                None => self.lookup(id@) is None,
            },
    {
        match self.find(id) {
            Some(i) => {
                proof {
                    self.lemma_lookup_at(i as int);
                }
                Some(&self.entities[i])
            },
            None => None,
        }
    }
}

impl<E: Entity> Scene<E> {
    /// The hook calls recorded after the first `n`.
    pub open spec fn records_after(&self, n: nat) -> Seq<HookRecord<E>> {
        self.records().skip(n as int)
    }

    /// Applies last frame's requests in order, then runs `start` on every new
    /// entity, then `ready` on every new entity (marking it initialized), then
    /// `update` on all; each pass in ID order, each hook with a context that
    /// carries its own entity's ID. All new entities start before any
    /// receives ready. The requests these hooks make are exactly what is
    /// queued afterwards: they wait for the next frame.
    pub fn update(&mut self, step: &E::Step)
        requires
            old(self).wf(),
        ensures
            final(self).wf(),
            final(self)@ == initialize_all(
                apply_commands((old(self)@, old(self).removed()), old(self).pending()).0,
            ),
            final(self).removed() == apply_commands(
                (old(self)@, old(self).removed()),
                old(self).pending(),
            ).1,
            final(self).records().take(old(self).records().len() as int) == old(self).records(),
            final(self).records().len() >= old(self).records().len(),
            frame_recorded(
                apply_commands((old(self)@, old(self).removed()), old(self).pending()).0,
                apply_entities((old(self)@, old(self).removed()), old(self).entities(), old(self).pending()),
                *step,
                final(self).records_after(old(self).records().len()),
            ),
            final(self).entities() == frame_entities(
                apply_commands((old(self)@, old(self).removed()), old(self).pending()).0,
                apply_entities((old(self)@, old(self).removed()), old(self).entities(), old(self).pending()),
                *step,
                final(self).records_after(old(self).records().len()),
            ),
            final(self).pending() == queued_by(final(self).records_after(old(self).records().len())),
            final(self).hook_log() == old(self).hook_log() + frame_calls(
                apply_commands((old(self)@, old(self).removed()), old(self).pending()).0,
            ),
    {
        let mut queued: Vec<Command<E>> = Vec::new();
        std::mem::swap(&mut queued, &mut self.commands);
        let ghost cs = command_views(queued@);
        let ghost first = (self@, self.removed());
        let ghost es0 = self.entities();
        let ghost log0 = self.hook_log();
        let ghost rec0 = self.records();
        let ghost base = rec0.len();
        let ghost mut done: int = 0;
        proof {
            assert(cs.take(0) =~= Seq::<CommandView<E>>::empty());
            assert(command_views(queued@).skip(0) =~= cs);
            assert(self.pending() =~= Seq::<CommandView<E>>::empty());
        }
        while queued.len() > 0
            invariant
                self.wf(),
                0 <= done <= cs.len(),
                command_views(queued@) == cs.skip(done),
                (self@, self.removed()) == apply_commands(first, cs.take(done)),
                self.entities() == apply_entities(first, es0, cs.take(done)),
                self.pending() == Seq::<CommandView<E>>::empty(),
                self.hook_log() == log0,
                self.records() == rec0,
            decreases queued@.len(),
        {
            let ghost rest = queued@;
            let command = queued.remove(0);
            proof {
                assert(command_views(rest) == cs.skip(done));
                assert(cs.skip(done).len() > 0);
                assert(cs.skip(done)[0] == cs[done]);
                assert(command_views(rest)[0] == command@);
                assert(cs[done] == command@);
                assert(cs.take(done + 1).drop_last() =~= cs.take(done));
                assert(cs.take(done + 1).last() == cs[done]);
                assert(cs.skip(done + 1) =~= cs.skip(done).drop_first());
                assert(command_views(queued@) =~= command_views(rest).drop_first());
            }
            match command {
                Command::Spawn(id, entity) => {
                    self.insert(id, entity);
                },
                Command::Despawn(id) => {
                    self.despawn(id.as_str());
                },
            }
            proof {
                done = done + 1;
            }
        }
        proof {
            assert(cs.skip(done).len() == 0);
            assert(cs.take(done) =~= cs);
            assert(self.records().skip(base as int) =~= Seq::<HookRecord<E>>::empty());
            assert(queued_by(Seq::<HookRecord<E>>::empty()) =~= Seq::<CommandView<E>>::empty());
        }
        let ghost applied = self@;
        let ghost removed = self.removed();
        let ghost ents = self.entities();
        let n = self.ids.len();

        let mut i: usize = 0;
        proof {
            assert(applied.take(0) =~= Seq::<(Seq<char>, bool)>::empty());
            assert(log0 + calls(Hook::Start, fresh_ids(applied.take(0))) =~= log0);
        }
        while i < n
            invariant
                self.wf(),
                n == self@.len(),
                i <= n,
                self@ == applied,
                self.removed() == removed,
                self.records().len() >= base,
                self.records().take(base as int) == rec0,
                pass_recorded(
                    Invocation::<E::Event, E::Step>::Start,
                    applied,
                    ents,
                    i as nat,
                    self.records().skip(base as int),
                ),
                self.entities() == pass_entities(
                    Invocation::<E::Event, E::Step>::Start,
                    applied,
                    ents,
                    i as nat,
                    self.records().skip(base as int),
                ),
                self.pending() == queued_by(self.records().skip(base as int)),
                self.hook_log() == log0 + calls(Hook::Start, fresh_ids(applied.take(i as int))),
            decreases n - i,
        {
            proof {
                self.lemma_view_index(i as int);
                assert(applied.take(i + 1).drop_last() =~= applied.take(i as int));
                lemma_calls_push(Hook::Start, fresh_ids(applied.take(i as int)), applied[i as int].0);
            }
            if !self.initialized[i] {
                let ghost rs = self.records().skip(base as int);
                let ghost log = self.log@;
                let ghost hl = self.hook_log();
                let ghost entity = self.entities@[i as int];
                let mut ctx = EntityContext::new(self.ids[i].clone());
                self.entities[i].start(&mut ctx);
                let ghost id = ctx.id_view();
                let ghost cmds = self.commands@;
                proof {
                    assert(ctx.queued().skip(0) =~= ctx.queued());
                }
                let mut requests = ctx.into_commands();
                let ghost added = requests@;
                self.commands.append(&mut requests);
                let ghost r = HookRecord {
                    hook: Hook::Start,
                    id,
                    before: entity,
                    after: self.entities@[i as int],
                    queued: command_views(added),
                };
                self.log = Ghost(self.log@.push(r));
                proof {
                    lemma_command_views_append(cmds, added);
                    assert(self.records().skip(base as int) =~= rs.push(r));
                    assert(rs.push(r).drop_last() =~= rs);
                    assert(self.records().take(base as int) =~= log.take(base as int));
                    assert(self.hook_log() =~= hl.push((Hook::Start, id)));
                }
            }
            proof {
                assert(self@ =~= applied);
            }
            i = i + 1;
        }
        proof {
            assert(applied.take(n as int) =~= applied);
        }
        let ghost log1 = self.hook_log();
        let ghost srs = self.records().skip(base as int);
        let ghost base1 = self.records().len();
        let ghost started = self.entities();
        let ghost q1 = self.pending();
        proof {
            lemma_pass_recorded_len(Invocation::<E::Event, E::Step>::Start, applied, ents, n as nat, srs);
        }

        let mut i: usize = 0;
        proof {
            assert(applied.take(0) =~= Seq::<(Seq<char>, bool)>::empty());
            assert(log1 + calls(Hook::Ready, fresh_ids(applied.take(0))) =~= log1);
            assert(self.records().skip(base1 as int) =~= Seq::<HookRecord<E>>::empty());
            assert(q1 + queued_by(Seq::<HookRecord<E>>::empty()) =~= q1);
        }
        while i < n
            invariant
                self.wf(),
                n == self@.len(),
                i <= n,
                forall|j: int|
                    0 <= j < n ==> #[trigger] self@[j] == (applied[j].0, if j < i {
                        true
                    } else {
                        applied[j].1
                    }),
                ids_ascending(applied),
                applied.len() == n,
                self.removed() == removed,
                base <= base1 <= self.records().len(),
                self.records().take(base1 as int) == rec0 + srs,
                srs.len() == base1 - base,
                pass_recorded(
                    Invocation::<E::Event, E::Step>::Ready,
                    applied,
                    started,
                    i as nat,
                    self.records().skip(base1 as int),
                ),
                self.entities() == pass_entities(
                    Invocation::<E::Event, E::Step>::Ready,
                    applied,
                    started,
                    i as nat,
                    self.records().skip(base1 as int),
                ),
                self.pending() == q1 + queued_by(self.records().skip(base1 as int)),
                self.hook_log() == log1 + calls(Hook::Ready, fresh_ids(applied.take(i as int))),
            decreases n - i,
        {
            proof {
                self.lemma_view_index(i as int);
                assert(applied.take(i + 1).drop_last() =~= applied.take(i as int));
                lemma_calls_push(Hook::Ready, fresh_ids(applied.take(i as int)), applied[i as int].0);
            }
            let ghost prev = self@;
            if !self.initialized[i] {
                let ghost rs = self.records().skip(base1 as int);
                let ghost log = self.log@;
                let ghost hl = self.hook_log();
                let ghost entity = self.entities@[i as int];
                let mut ctx = EntityContext::new(self.ids[i].clone());
                self.entities[i].ready(&mut ctx);
                let ghost id = ctx.id_view();
                let ghost cmds = self.commands@;
                proof {
                    assert(ctx.queued().skip(0) =~= ctx.queued());
                }
                let mut requests = ctx.into_commands();
                let ghost added = requests@;
                self.commands.append(&mut requests);
                self.initialized.set(i, true);
                let ghost r = HookRecord {
                    hook: Hook::Ready,
                    id,
                    before: entity,
                    after: self.entities@[i as int],
                    queued: command_views(added),
                };
                self.log = Ghost(self.log@.push(r));
                proof {
                    lemma_command_views_append(cmds, added);
                    assert(self.records().skip(base1 as int) =~= rs.push(r));
                    assert(rs.push(r).drop_last() =~= rs);
                    assert(self.records().take(base1 as int) =~= log.take(base1 as int));
                    assert(self.hook_log() =~= hl.push((Hook::Ready, id)));
                    assert(q1 + (queued_by(rs) + r.queued) =~= (q1 + queued_by(rs)) + r.queued);
                }
            }
            proof {
                assert forall|j: int| 0 <= j < n implies #[trigger] self@[j] == (
                    applied[j].0,
                    if j < i + 1 {
                        true
                    } else {
                        applied[j].1
                    },
                ) by {
                    self.lemma_view_index(j);
                    assert(prev[j] == (applied[j].0, if j < i {
                        true
                    } else {
                        applied[j].1
                    }));
                    if j != i {
                        assert(self@[j] == prev[j]);
                    }
                }
                assert forall|a: int, b: int| 0 <= a < b < self@.len() implies id_before(
                    #[trigger] self@[a].0,
                    #[trigger] self@[b].0,
                ) by {
                    assert(id_before(applied[a].0, applied[b].0));
                }
            }
            i = i + 1;
        }
        proof {
            assert(applied.take(n as int) =~= applied);
            assert(self@ =~= initialize_all(applied));
        }
        let ghost log2 = self.hook_log();
        let ghost ready = self@;
        let ghost rrs = self.records().skip(base1 as int);
        let ghost base2 = self.records().len();
        let ghost readied = self.entities();
        let ghost q2 = self.pending();
        proof {
            lemma_pass_recorded_len(Invocation::<E::Event, E::Step>::Ready, applied, started, n as nat, rrs);
        }

        let mut i: usize = 0;
        proof {
            assert(applied.take(0) =~= Seq::<(Seq<char>, bool)>::empty());
            assert(log2 + calls(Hook::Update, all_ids(applied.take(0))) =~= log2);
            assert(self.records().skip(base2 as int) =~= Seq::<HookRecord<E>>::empty());
            assert(q2 + queued_by(Seq::<HookRecord<E>>::empty()) =~= q2);
        }
        while i < n
            invariant
                self.wf(),
                n == self@.len(),
                i <= n,
                self@ == ready,
                ready.len() == n,
                applied.len() == n,
                forall|j: int| 0 <= j < n ==> #[trigger] ready[j].0 == applied[j].0,
                self.removed() == removed,
                base2 <= self.records().len(),
                self.records().take(base2 as int) == rec0 + srs + rrs,
                srs.len() + rrs.len() == base2 - base,
                pass_recorded(
                    Invocation::<E::Event, E::Step>::Update(*step),
                    applied,
                    readied,
                    i as nat,
                    self.records().skip(base2 as int),
                ),
                self.entities() == pass_entities(
                    Invocation::<E::Event, E::Step>::Update(*step),
                    applied,
                    readied,
                    i as nat,
                    self.records().skip(base2 as int),
                ),
                self.pending() == q2 + queued_by(self.records().skip(base2 as int)),
                self.hook_log() == log2 + calls(Hook::Update, all_ids(applied.take(i as int))),
            decreases n - i,
        {
            proof {
                self.lemma_view_index(i as int);
                assert(ready[i as int].0 == applied[i as int].0);
                assert(all_ids(applied.take(i + 1)) =~= all_ids(applied.take(i as int)).push(
                    applied[i as int].0,
                ));
                lemma_calls_push(Hook::Update, all_ids(applied.take(i as int)), applied[i as int].0);
            }
            let ghost rs = self.records().skip(base2 as int);
            let ghost log = self.log@;
            let ghost hl = self.hook_log();
            let ghost entity = self.entities@[i as int];
            let mut ctx = EntityContext::new(self.ids[i].clone());
            self.entities[i].update(&mut ctx, step);
            let ghost id = ctx.id_view();
            let ghost cmds = self.commands@;
            proof {
                assert(ctx.queued().skip(0) =~= ctx.queued());
            }
            let mut requests = ctx.into_commands();
            let ghost added = requests@;
            self.commands.append(&mut requests);
            let ghost r = HookRecord {
                hook: Hook::Update,
                id,
                before: entity,
                after: self.entities@[i as int],
                queued: command_views(added),
            };
            self.log = Ghost(self.log@.push(r));
            proof {
                lemma_command_views_append(cmds, added);
                assert(self.records().skip(base2 as int) =~= rs.push(r));
                assert(rs.push(r).drop_last() =~= rs);
                assert(self.records().take(base2 as int) =~= log.take(base2 as int));
                assert(self.hook_log() =~= hl.push((Hook::Update, id)));
                assert(q2 + (queued_by(rs) + r.queued) =~= (q2 + queued_by(rs)) + r.queued);
                assert(self@ =~= ready);
            }
            i = i + 1;
        }
        proof {
            let urs = self.records().skip(base2 as int);
            let all = self.records().skip(base as int);
            assert(applied.take(n as int) =~= applied);
            assert(self.hook_log() =~= log0 + frame_calls(applied));
            assert(all =~= srs + rrs + urs) by {
                assert(self.records() =~= self.records().take(base2 as int) + urs);
            }
            assert(all.take(srs.len() as int) =~= srs);
            assert(all.subrange(srs.len() as int, (srs.len() + rrs.len()) as int) =~= rrs);
            assert(all.skip((srs.len() + rrs.len()) as int) =~= urs);
            lemma_queued_by_append(srs, rrs);
            lemma_queued_by_append(srs + rrs, urs);
            assert(self.records().take(base as int) =~= rec0);
        }
    }

    /// Delivers `event` to every entity whose initialization hooks have run,
    /// in ID order, each with a context that carries its own entity's ID. The
    /// requests the hooks make are queued after those already waiting, for
    /// the next frame.
    pub fn event(&mut self, event: &E::Event)
        requires
            old(self).wf(),
        ensures
            final(self).wf(),
            final(self)@ == old(self)@,
            final(self).removed() == old(self).removed(),
            final(self).records().take(old(self).records().len() as int) == old(self).records(),
            final(self).records().len() >= old(self).records().len(),
            pass_recorded(
                Invocation::Event(*event),
                old(self)@,
                old(self).entities(),
                old(self)@.len(),
                final(self).records_after(old(self).records().len()),
            ),
            final(self).entities() == pass_entities(
                Invocation::Event(*event),
                old(self)@,
                old(self).entities(),
                old(self)@.len(),
                final(self).records_after(old(self).records().len()),
            ),
            final(self).pending() == old(self).pending() + queued_by(
                final(self).records_after(old(self).records().len()),
            ),
            final(self).hook_log() == old(self).hook_log() + calls(
                Hook::Event,
                initialized_ids(old(self)@),
            ),
    {
        let ghost v = self@;
        let ghost es0 = self.entities();
        let ghost log0 = self.hook_log();
        let ghost pending0 = self.pending();
        let ghost rec0 = self.records();
        let ghost base = rec0.len();
        let n = self.ids.len();
        let mut i: usize = 0;
        proof {
            assert(v.take(0) =~= Seq::<(Seq<char>, bool)>::empty());
            assert(log0 + calls(Hook::Event, initialized_ids(v.take(0))) =~= log0);
            assert(self.records().skip(base as int) =~= Seq::<HookRecord<E>>::empty());
            assert(pending0 + queued_by(Seq::<HookRecord<E>>::empty()) =~= pending0);
        }
        while i < n
            invariant
                self.wf(),
                n == self@.len(),
                i <= n,
                self@ == v,
                self.removed() == old(self).removed(),
                base <= self.records().len(),
                self.records().take(base as int) == rec0,
                pass_recorded(
                    Invocation::<E::Event, E::Step>::Event(*event),
                    v,
                    es0,
                    i as nat,
                    self.records().skip(base as int),
                ),
                self.entities() == pass_entities(
                    Invocation::<E::Event, E::Step>::Event(*event),
                    v,
                    es0,
                    i as nat,
                    self.records().skip(base as int),
                ),
                self.pending() == pending0 + queued_by(self.records().skip(base as int)),
                self.hook_log() == log0 + calls(Hook::Event, initialized_ids(v.take(i as int))),
            decreases n - i,
        {
            proof {
                self.lemma_view_index(i as int);
                assert(v.take(i + 1).drop_last() =~= v.take(i as int));
                lemma_calls_push(Hook::Event, initialized_ids(v.take(i as int)), v[i as int].0);
            }
            if self.initialized[i] {
                let ghost rs = self.records().skip(base as int);
                let ghost log = self.log@;
                let ghost hl = self.hook_log();
                let ghost entity = self.entities@[i as int];
                let mut ctx = EntityContext::new(self.ids[i].clone());
                self.entities[i].event(&mut ctx, event);
                let ghost id = ctx.id_view();
                let ghost cmds = self.commands@;
                proof {
                    assert(ctx.queued().skip(0) =~= ctx.queued());
                }
                let mut requests = ctx.into_commands();
                let ghost added = requests@;
                self.commands.append(&mut requests);
                let ghost r = HookRecord {
                    hook: Hook::Event,
                    id,
                    before: entity,
                    after: self.entities@[i as int],
                    queued: command_views(added),
                };
                self.log = Ghost(self.log@.push(r));
                proof {
                    lemma_command_views_append(cmds, added);
                    assert(self.records().skip(base as int) =~= rs.push(r));
                    assert(rs.push(r).drop_last() =~= rs);
                    assert(self.records().take(base as int) =~= log.take(base as int));
                    assert(self.hook_log() =~= hl.push((Hook::Event, id)));
                    assert(pending0 + (queued_by(rs) + r.queued) =~= (pending0 + queued_by(rs))
                        + r.queued);
                }
            }
            proof {
                assert(self@ =~= v);
            }
            i = i + 1;
        }
        proof {
            assert(v.take(n as int) =~= v);
        }
    }
}

/// The entity registered under `k` among registrations `v` with entities
/// `es`, in registration order.
pub open spec fn entity_of<E>(v: Entries, es: Seq<E>, k: Seq<char>) -> Option<E> {
    if has_id(v, k) {
        Some(es[position_of(v, k)])
    } else {
        None
    }
}

/// Among ascending IDs, the registration at `p` is the one `position_of`
/// finds for its ID.
proof fn lemma_position_of_at(v: Entries, p: int)
    requires
        ids_ascending(v),
        0 <= p < v.len(),
    ensures
        has_id(v, v[p].0),
        position_of(v, v[p].0) == p,
{
    lemma_ascending_split(v, p);
    assert(has_id(v, v[p].0));
}

/// A new ID absent from ascending registrations goes where every ID before
/// it comes before it and every ID after it comes after it.
proof fn lemma_insert_position_split(v: Entries, k: Seq<char>)
    requires
        ids_ascending(v),
        !has_id(v, k),
    ensures
        0 <= insert_position(v, k) <= v.len(),
        forall|j: int| 0 <= j < insert_position(v, k) ==> id_before(#[trigger] v[j].0, k),
        forall|j: int| insert_position(v, k) <= j < v.len() ==> id_before(k, #[trigger] v[j].0),
    decreases v.len(),
{
    if v.len() == 0 {
    } else if id_before(k, v[0].0) {
        assert forall|j: int| 0 <= j < v.len() implies id_before(k, #[trigger] v[j].0) by {
            if j > 0 {
                assert(id_before(v[0].0, v[j].0));
                lemma_id_before_transitive(k, v[0].0, v[j].0);
            }
        }
    } else {
        assert(v[0].0 != k);
        lemma_id_before_total(v[0].0, k);
        let w = v.drop_first();
        assert forall|a: int, b: int| #![trigger w[a], w[b]] 0 <= a < b < w.len() implies id_before(
            w[a].0,
            w[b].0,
        ) by {
            assert(id_before(v[a + 1].0, v[b + 1].0));
        }
        if has_id(w, k) {
            let i = choose|i: int| 0 <= i < w.len() && w[i].0 == k;
            assert(v[i + 1].0 == k);
        }
        lemma_insert_position_split(w, k);
        assert forall|j: int| 0 <= j < insert_position(v, k) implies id_before(#[trigger] v[j].0, k) by {
            if j > 0 {
                assert(v[j] == w[j - 1]);
            }
        }
        assert forall|j: int| insert_position(v, k) <= j < v.len() implies id_before(
            k,
            #[trigger] v[j].0,
        ) by {
            assert(v[j] == w[j - 1]);
        }
    }
}

/// Registering an absent ID keeps the IDs ascending and every other lookup
/// as it was.
proof fn lemma_entity_of_after_insert<E>(w: Entries, fs: Seq<E>, k2: Seq<char>, e: E, k: Seq<char>)
    requires
        ids_ascending(w),
        fs.len() == w.len(),
        !has_id(w, k2),
        k != k2,
    ensures
        0 <= insert_position(w, k2) <= w.len(),
        insert_sorted(w, k2) == w.insert(insert_position(w, k2), (k2, false)),
        ids_ascending(insert_sorted(w, k2)),
        has_id(insert_sorted(w, k2), k) == has_id(w, k),
        entity_of(insert_sorted(w, k2), fs.insert(insert_position(w, k2), e), k) == entity_of(w, fs, k),
{
    lemma_insert_position_split(w, k2);
    let p = insert_position(w, k2);
    lemma_insert_sorted_at(w, k2, p);
    let u = w.insert(p, (k2, false));
    let gs = fs.insert(p, e);
    assert forall|i: int, j: int| 0 <= i < j < u.len() implies id_before(
        #[trigger] u[i].0,
        #[trigger] u[j].0,
    ) by {
        if j < p {
            assert(id_before(w[i].0, w[j].0));
        } else if j == p {
        } else if i < p {
            assert(id_before(w[i].0, k2));
            lemma_id_before_transitive(w[i].0, k2, w[j - 1].0);
        } else if i == p {
        } else {
            assert(id_before(w[i - 1].0, w[j - 1].0));
        }
    }
    if has_id(w, k) {
        let i = position_of(w, k);
        let q = if i < p { i } else { i + 1 };
        assert(u[q] == w[i]);
        lemma_position_of_at(u, q);
        assert(gs[q] == fs[i]);
    }
    if has_id(u, k) {
        let q = choose|q: int| 0 <= q < u.len() && u[q].0 == k;
        let i = if q < p { q } else { q - 1 };
        assert(w[i] == u[q]);
    }
}

/// Removing the registration of one ID keeps the IDs ascending and every
/// other lookup as it was.
proof fn lemma_entity_of_after_remove<E>(w: Entries, fs: Seq<E>, k2: Seq<char>, k: Seq<char>)
    requires
        ids_ascending(w),
        fs.len() == w.len(),
        has_id(w, k2),
        k != k2,
    ensures
        0 <= position_of(w, k2) < w.len(),
        without_id(w, k2) == w.remove(position_of(w, k2)),
        ids_ascending(without_id(w, k2)),
        has_id(without_id(w, k2), k) == has_id(w, k),
        entity_of(without_id(w, k2), fs.remove(position_of(w, k2)), k) == entity_of(w, fs, k),
{
    let q = position_of(w, k2);
    lemma_ascending_split(w, q);
    lemma_without_id_at(w, k2, q);
    let u = w.remove(q);
    let gs = fs.remove(q);
    assert forall|i: int, j: int| 0 <= i < j < u.len() implies id_before(
        #[trigger] u[i].0,
        #[trigger] u[j].0,
    ) by {
        let i0 = if i < q { i } else { i + 1 };
        let j0 = if j < q { j } else { j + 1 };
        assert(id_before(w[i0].0, w[j0].0));
    }
    if has_id(w, k) {
        let i = position_of(w, k);
        assert(i != q);
        let c = if i < q { i } else { i - 1 };
        assert(u[c] == w[i]);
        lemma_position_of_at(u, c);
        assert(gs[c] == fs[i]);
    }
    if has_id(u, k) {
        let c = choose|c: int| 0 <= c < u.len() && u[c].0 == k;
        let i = if c < q { c } else { c + 1 };
        assert(w[i] == u[c]);
    }
}

/// Applying requests `cs` keeps the IDs ascending, the entities in step with
/// them, and the entity of a registered ID `k` that no request despawns.
pub(crate) proof fn lemma_apply_keeps<E>(
    v: Entries,
    r: Seq<Seq<char>>,
    es: Seq<E>,
    cs: Seq<CommandView<E>>,
    k: Seq<char>,
)
    requires
        ids_ascending(v),
        es.len() == v.len(),
        has_id(v, k),
        forall|j: int| 0 <= j < cs.len() ==> #[trigger] cs[j] != CommandView::<E>::Despawn(k),
    ensures
        ids_ascending(apply_commands((v, r), cs).0),
        apply_entities((v, r), es, cs).len() == apply_commands((v, r), cs).0.len(),
        has_id(apply_commands((v, r), cs).0, k),
        entity_of(apply_commands((v, r), cs).0, apply_entities((v, r), es, cs), k) == entity_of(v, es, k),
    decreases cs.len(),
{
    if cs.len() > 0 {
        let ds = cs.drop_last();
        assert forall|j: int| 0 <= j < ds.len() implies #[trigger] ds[j] != CommandView::<E>::Despawn(k) by {
            assert(ds[j] == cs[j]);
        }
        lemma_apply_keeps(v, r, es, ds, k);
        let w = apply_commands((v, r), ds).0;
        let fs = apply_entities((v, r), es, ds);
        assert(cs.last() == cs[cs.len() - 1]);
        match cs.last() {
            CommandView::Spawn(k2, e) => {
                if !has_id(w, k2) {
                    lemma_entity_of_after_insert(w, fs, k2, e, k);
                }
            },
            CommandView::Despawn(k2) => {
                if has_id(w, k2) {
                    lemma_entity_of_after_remove(w, fs, k2, k);
                }
            },
        }
    }
}

/// A spawn of an absent ID registers its entity under that ID, and a
/// despawn of a registered ID leaves nothing under it.
pub(crate) proof fn lemma_apply_one<E>(v: Entries, r: Seq<Seq<char>>, es: Seq<E>, c: CommandView<E>)
    requires
        ids_ascending(v),
        es.len() == v.len(),
    ensures
        ids_ascending(apply_commands((v, r), seq![c]).0),
        apply_entities((v, r), es, seq![c]).len() == apply_commands((v, r), seq![c]).0.len(),
        c matches CommandView::Spawn(k, e) ==> !has_id(v, k) ==> entity_of(
            apply_commands((v, r), seq![c]).0,
            apply_entities((v, r), es, seq![c]),
            k,
        ) == Some(e),
        c matches CommandView::Despawn(k) ==> entity_of(
            apply_commands((v, r), seq![c]).0,
            apply_entities((v, r), es, seq![c]),
            k,
        ) is None,
{
    let cs = seq![c];
    assert(cs.drop_last() =~= Seq::<CommandView<E>>::empty());
    assert(cs.last() == c);
    assert(apply_commands((v, r), cs.drop_last()) == (v, r));
    assert(apply_entities((v, r), es, cs.drop_last()) == es);
    match c {
        CommandView::Spawn(k, e) => {
            if !has_id(v, k) {
                lemma_insert_position_split(v, k);
                let p = insert_position(v, k);
                lemma_insert_sorted_at(v, k, p);
                let u = v.insert(p, (k, false));
                assert forall|i: int, j: int| 0 <= i < j < u.len() implies id_before(
                    #[trigger] u[i].0,
                    #[trigger] u[j].0,
                ) by {
                    if j < p {
                        assert(id_before(v[i].0, v[j].0));
                    } else if j == p {
                    } else if i < p {
                        assert(id_before(v[i].0, k));
                        lemma_id_before_transitive(v[i].0, k, v[j - 1].0);
                    } else if i == p {
                    } else {
                        assert(id_before(v[i - 1].0, v[j - 1].0));
                    }
                }
                assert(u[p].0 == k);
                lemma_position_of_at(u, p);
                assert(es.insert(p, e)[p] == e);
                assert(es.insert(p, e).len() == u.len());
            }
        },
        CommandView::Despawn(k) => {
            if has_id(v, k) {
                let q = position_of(v, k);
                lemma_ascending_split(v, q);
                lemma_without_id_at(v, k, q);
                let u = v.remove(q);
                assert forall|i: int, j: int| 0 <= i < j < u.len() implies id_before(
                    #[trigger] u[i].0,
                    #[trigger] u[j].0,
                ) by {
                    let i0 = if i < q { i } else { i + 1 };
                    let j0 = if j < q { j } else { j + 1 };
                    assert(id_before(v[i0].0, v[j0].0));
                }
                if has_id(u, k) {
                    let c2 = choose|c2: int| 0 <= c2 < u.len() && u[c2].0 == k;
                    let i = if c2 < q { c2 } else { c2 + 1 };
                    assert(v[i] == u[c2]);
                }
            }
        },
    }
}

} // verus!

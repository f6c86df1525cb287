//! User-defined scene entities and the context their hooks receive.
use vstd::prelude::*;

verus! {

/// The lifecycle hooks that a scene invokes on its entities.
#[derive(PartialEq, Eq, Structural, Clone, Copy, Debug)]
pub enum Hook {
    Start,
    Ready,
    Event,
    Update,
}

/// A request made from inside a hook. Requests are applied in order at the
/// start of the next frame.
pub enum Command<E> {
    Spawn(String, E),
    Despawn(String),
}

/// What a queued request asks for, with its ID taken as characters.
pub enum CommandView<E> {
    Spawn(Seq<char>, E),
    Despawn(Seq<char>),
}

impl<E> View for Command<E> {
    type V = CommandView<E>;

    open spec fn view(&self) -> CommandView<E> {
        match self {
            Command::Spawn(id, entity) => CommandView::Spawn(id@, *entity),
            Command::Despawn(id) => CommandView::Despawn(id@),
        }
    }
}

/// The views of a sequence of requests, in order.
pub open spec fn command_views<E>(commands: Seq<Command<E>>) -> Seq<CommandView<E>> {
    commands.map_values(|c: Command<E>| c@)
}

/// Implement this trait to register a type with a scene. Each registration
/// receives `start`, then `ready`, once before its first `update`; `event`
/// reaches it only after both. `Event` is the input that `event` receives and
/// `Step` the frame time that `update` receives.
///
/// Each hook keeps its context's ID, only adds requests to it, and leaves an
/// outcome that its spec function allows: the entity afterwards and the
/// requests it queued, given the entity before and the ID of its
/// registration. Unless an implementation says more, any outcome is allowed.
pub trait Entity: Sized {
    type Event;

    type Step;

    /// Whether `start`, run on this entity registered under `id`, may leave
    /// it as `after` having queued `queued`.
    open spec fn start_allows(self, id: Seq<char>, after: Self, queued: Seq<CommandView<Self>>) -> bool {
        true
    }

    fn start(&mut self, ctx: &mut EntityContext<Self>)
        ensures
            final(ctx).id_view() == old(ctx).id_view(),
            old(ctx).queued().is_prefix_of(final(ctx).queued()),
            old(self).start_allows(
                old(ctx).id_view(),
                *final(self),
                final(ctx).queued().skip(old(ctx).queued().len() as int),
            ),
    ;

    /// Whether `ready`, run on this entity registered under `id`, may leave
    /// it as `after` having queued `queued`.
    open spec fn ready_allows(self, id: Seq<char>, after: Self, queued: Seq<CommandView<Self>>) -> bool {
        true
    }

    fn ready(&mut self, ctx: &mut EntityContext<Self>)
        ensures
            final(ctx).id_view() == old(ctx).id_view(),
            old(ctx).queued().is_prefix_of(final(ctx).queued()),
            old(self).ready_allows(
                old(ctx).id_view(),
                *final(self),
                final(ctx).queued().skip(old(ctx).queued().len() as int),
            ),
    ;

    /// Whether `event`, run on this entity registered under `id` with
    /// `event`, may leave it as `after` having queued `queued`.
    open spec fn event_allows(
        self,
        id: Seq<char>,
        event: Self::Event,
        after: Self,
        queued: Seq<CommandView<Self>>,
    ) -> bool {
        true
    }

    fn event(&mut self, ctx: &mut EntityContext<Self>, event: &Self::Event)
        ensures
            final(ctx).id_view() == old(ctx).id_view(),
            old(ctx).queued().is_prefix_of(final(ctx).queued()),
            old(self).event_allows(
                old(ctx).id_view(),
                *event,
                *final(self),
                final(ctx).queued().skip(old(ctx).queued().len() as int),
            ),
    ;

    /// Whether `update`, run on this entity registered under `id` over
    /// `step`, may leave it as `after` having queued `queued`.
    open spec fn update_allows(
        self,
        id: Seq<char>,
        step: Self::Step,
        after: Self,
        queued: Seq<CommandView<Self>>,
    ) -> bool {
        true
    }

    fn update(&mut self, ctx: &mut EntityContext<Self>, step: &Self::Step)
        ensures
            final(ctx).id_view() == old(ctx).id_view(),
            old(ctx).queued().is_prefix_of(final(ctx).queued()),
            old(self).update_allows(
                old(ctx).id_view(),
                *step,
                *final(self),
                final(ctx).queued().skip(old(ctx).queued().len() as int),
            ),
    ;
}

/// What a hook may do besides changing its own entity: read its ID and queue
/// requests. Spawn uses unique string IDs; a queued duplicate is ignored
/// without replacing the existing entity. Despawn followed by spawn replaces it.
pub struct EntityContext<E> {
    id: String,
    commands: Vec<Command<E>>,
}

impl<E> EntityContext<E> {
    /// The ID of the entity whose hook is running.
    pub closed spec fn id_view(&self) -> Seq<char> {
        self.id@
    }

    /// The requests queued through this context so far, in order.
    pub closed spec fn queued(&self) -> Seq<CommandView<E>> {
        command_views(self.commands@)
    }

    pub(crate) fn new(id: String) -> (ctx: Self)
        ensures
            ctx.id_view() == id@,
            ctx.queued() == Seq::<CommandView<E>>::empty(),
    {
        let ctx = EntityContext { id, commands: Vec::new() };
        proof {
            assert(ctx.queued() =~= Seq::<CommandView<E>>::empty());
        }
        ctx
    }

    /// Hands over the queued requests.
    pub(crate) fn into_commands(self) -> (commands: Vec<Command<E>>)
        ensures
            command_views(commands@) == self.queued(),
    {
        self.commands
    }

    pub fn id(&self) -> (id: &str)
        ensures
            id@ == self.id_view(),
    {
        self.id.as_str()
    }

    /// Queues the registration of `entity` under `id` for the next frame.
    pub fn spawn(&mut self, id: &str, entity: E)
        ensures
            final(self).id_view() == old(self).id_view(),
            final(self).queued() == old(self).queued().push(CommandView::Spawn(id@, entity)),
    {
        let c = Command::Spawn(id.to_owned(), entity);
        self.commands.push(c);
        proof {
            assert(command_views(self.commands@) =~= command_views(old(self).commands@).push(
                CommandView::Spawn(id@, entity),
            ));
        }
    }

    /// Queues the removal of the entity `id` for the next frame.
    pub fn despawn(&mut self, id: &str)
        ensures
            final(self).id_view() == old(self).id_view(),
            final(self).queued() == old(self).queued().push(CommandView::Despawn(id@)),
    {
        let c = Command::Despawn(id.to_owned());
        self.commands.push(c);
        proof {
            assert(command_views(self.commands@) =~= command_views(old(self).commands@).push(
                CommandView::Despawn(id@),
            ));
        }
    }

    /// Queues the removal of the entity whose hook is running.
    pub fn despawn_self(&mut self)
        ensures
            final(self).id_view() == old(self).id_view(),
            final(self).queued() == old(self).queued().push(CommandView::Despawn(old(self).id_view())),
    {
        let id = self.id.clone();
        self.despawn(id.as_str());
    }
}

} // verus!

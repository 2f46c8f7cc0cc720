//! Deferred structural mutations, flushed into the `World` after systems run.

use vstd::prelude::*;

use super::entity::Entity;

verus! {

/// Pending spawn handle; valid only for its source buffer, until the flush.
#[derive(Debug, Clone, Copy, PartialEq, Eq, Hash, Structural)]
pub struct PendingEntity(pub(crate) u32);

impl PendingEntity {
    /// Position of the spawn among its buffer's spawns.
    pub closed spec fn id(self) -> u32 {
        self.0
    }
}

/// Entity a queued insert applies to.
pub enum CommandTarget {
    Live(Entity),
    Pending(u32),
}

/// One queued mutation.
pub enum Command<C> {
    Spawn { pending_id: u32 },
    Insert { target: CommandTarget, key: u64, value: C },
    Remove { entity: Entity, key: u64 },
    Despawn(Entity),
}

/// Number of spawn commands in `cmds`.
pub open spec fn spawn_count<C>(cmds: Seq<Command<C>>) -> nat
    decreases cmds.len(),
{
    if cmds.len() == 0 {
        0
    } else {
        spawn_count(cmds.drop_last()) + if cmds.last() is Spawn { 1nat } else { 0nat }
    }
}

/// Well-formed command list: spawns are numbered `0, 1, ...` in order and
/// pending targets name spawns of the list.
pub open spec fn commands_wf<C>(cmds: Seq<Command<C>>, pending_count: nat) -> bool {
    &&& spawn_count(cmds) == pending_count
    &&& forall|i: int| 0 <= i < cmds.len() ==> match #[trigger] cmds[i] {
        Command::Spawn { pending_id } => pending_id == spawn_count(cmds.take(i)),
        Command::Insert { target: CommandTarget::Pending(id), .. } => id < pending_count,
        _ => true,
    }
}

/// Deferred structural mutations; flushed after systems, before extract/render.
pub struct CommandBuffer<C> {
    commands: Vec<Command<C>>,
    pending_count: u32,
}

impl<C> CommandBuffer<C> {
    /// Queued commands in order.
    pub closed spec fn commands(&self) -> Seq<Command<C>> {
        self.commands@
    }

    /// Number of queued spawns.
    pub closed spec fn pending_count(&self) -> nat {
        self.pending_count as nat
    }

    /// Internal invariant.
    pub closed spec fn wf(&self) -> bool {
        commands_wf(self.commands@, self.pending_count as nat)
    }

    /// Empty buffer.
    pub fn new() -> (b: Self)
        ensures
            b.wf(),
            b.commands() == Seq::<Command<C>>::empty(),
            b.pending_count() == 0,
    {
        CommandBuffer { commands: Vec::new(), pending_count: 0 }
    }

    /// No command is queued.
    pub fn is_empty(&self) -> (r: bool)
        ensures
            r == (self.commands().len() == 0),
    {
        self.commands.len() == 0
    }

    /// Number of queued commands.
    pub fn len(&self) -> (r: usize)
        ensures
            r == self.commands().len(),
    {
        self.commands.len()
    }

    /// Queue a spawn and return its pending handle.
    pub fn spawn(&mut self) -> (p: PendingEntity)
        requires
            old(self).wf(),
            old(self).pending_count() < u32::MAX,
        ensures
            final(self).wf(),
            p.id() == old(self).pending_count(),
            final(self).pending_count() == old(self).pending_count() + 1,
            final(self).commands() == old(self).commands().push(Command::Spawn { pending_id: p.id() }),
    {
        let pending_id = self.pending_count;
        self.pending_count += 1;
        let ghost pre = self.commands@;
        self.commands.push(Command::Spawn { pending_id });
        proof {
            lemma_push_wf(pre, Command::Spawn { pending_id }, pending_id as nat, self.pending_count as nat);
        }
        PendingEntity(pending_id)
    }

    /// Queue a component insert on a live entity.
    pub fn insert(&mut self, entity: Entity, key: u64, component: C)
        requires
            old(self).wf(),
        ensures
            final(self).wf(),
            final(self).pending_count() == old(self).pending_count(),
            final(self).commands() == old(self).commands().push(
                Command::Insert { target: CommandTarget::Live(entity), key, value: component },
            ),
    {
        let ghost pre = self.commands@;
        let cmd = Command::Insert { target: CommandTarget::Live(entity), key, value: component };
        self.commands.push(cmd);
        proof {
            lemma_push_wf(pre, self.commands@.last(), self.pending_count as nat, self.pending_count as nat);
        }
    }

    /// Queue a component insert on an entity spawned by this buffer.
    pub fn insert_pending(&mut self, pending: PendingEntity, key: u64, component: C)
        requires
            old(self).wf(),
            pending.id() < old(self).pending_count(),
        ensures
            final(self).wf(),
            final(self).pending_count() == old(self).pending_count(),
            final(self).commands() == old(self).commands().push(
                Command::Insert { target: CommandTarget::Pending(pending.id()), key, value: component },
            ),
    {
        let ghost pre = self.commands@;
        let cmd = Command::Insert { target: CommandTarget::Pending(pending.0), key, value: component };
        self.commands.push(cmd);
        proof {
            lemma_push_wf(pre, self.commands@.last(), self.pending_count as nat, self.pending_count as nat);
        }
    }

    /// Queue a component removal; a dead entity or missing component is a
    /// no-op at flush.
    pub fn remove_component(&mut self, entity: Entity, key: u64)
        requires
            old(self).wf(),
        ensures
            final(self).wf(),
            final(self).pending_count() == old(self).pending_count(),
            final(self).commands() == old(self).commands().push(Command::Remove { entity, key }),
    {
        let ghost pre = self.commands@;
        self.commands.push(Command::Remove { entity, key });
        proof {
            lemma_push_wf(pre, self.commands@.last(), self.pending_count as nat, self.pending_count as nat);
        }
    }

    /// Queue a despawn; a dead entity is a no-op at flush.
    pub fn despawn(&mut self, entity: Entity)
        requires
            old(self).wf(),
        ensures
            final(self).wf(),
            final(self).pending_count() == old(self).pending_count(),
            final(self).commands() == old(self).commands().push(Command::Despawn(entity)),
    {
        let ghost pre = self.commands@;
        self.commands.push(Command::Despawn(entity));
        proof {
            lemma_push_wf(pre, self.commands@.last(), self.pending_count as nat, self.pending_count as nat);
        }
    }

    /// Hand the queued commands over, consuming the buffer.
    pub fn into_commands(self) -> (r: (Vec<Command<C>>, u32))
        ensures
            r.0@ == self.commands(),
            r.1 == self.pending_count(),
    {
        (self.commands, self.pending_count)
    }
}

impl<C> Default for CommandBuffer<C> {
    fn default() -> (b: Self)
        ensures
            b.wf(),
            b.commands() == Seq::<Command<C>>::empty(),
            b.pending_count() == 0,
    {
        Self::new()
    }
}

/// Reveal a buffer's invariant over its public views.
pub proof fn use_wf<C>(b: &CommandBuffer<C>)
    requires
        b.wf(),
    ensures
        commands_wf(b.commands(), b.pending_count()),
{
}

/// Appending a command keeps the list well formed.
proof fn lemma_push_wf<C>(pre: Seq<Command<C>>, cmd: Command<C>, old_count: nat, new_count: nat)
    requires
        commands_wf(pre, old_count),
        match cmd {
            Command::Spawn { pending_id } => pending_id == old_count && new_count == old_count + 1,
            Command::Insert { target: CommandTarget::Pending(id), .. } => id < old_count && new_count == old_count,
            _ => new_count == old_count,
        },
    ensures
        commands_wf(pre.push(cmd), new_count),
{
    let post = pre.push(cmd);
    assert(post.drop_last() =~= pre);
    assert forall|i: int| 0 <= i < post.len() implies match #[trigger] post[i] {
        Command::Spawn { pending_id } => pending_id == spawn_count(post.take(i)),
        Command::Insert { target: CommandTarget::Pending(id), .. } => id < new_count,
        _ => true,
    } by {
        if i < pre.len() {
            assert(post[i] == pre[i]);
            assert(post.take(i) =~= pre.take(i));
            assert(pre[i] == pre[i]);
        } else {
            assert(post.take(i) =~= pre);
        }
    }
}

} // verus!

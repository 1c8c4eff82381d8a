//! The processor's handling of control messages: installing a new schedule
//! (which nodes leave, which arrive, and what goes back to the control
//! thread) and stopping.
use vstd::prelude::*;

use crate::ids::NodeID;

verus! {

/// Why a new schedule cannot be installed.
#[derive(Clone, Copy, Debug, PartialEq, Eq, Structural)]
pub enum SwapError {
    /// The schedule was compiled for another block size than the stream's.
    BlockSizeMismatch,
    /// The slot of this new node still holds another node.
    SlotOccupied(NodeID),
}

/// The kind of a message from the control thread.
#[derive(Clone, Copy, Debug, PartialEq, Eq, Structural)]
pub enum ControlMessageKind {
    NewSchedule,
    Stop,
}

/// The node is installed: its slot holds exactly this handle, generation
/// included.
pub open spec fn installed_at(inst: Seq<Option<NodeID>>, id: NodeID) -> bool {
    id.idx < inst.len() && inst[id.idx as int] == Some(id)
}

/// The slot that this node would take is taken.
pub open spec fn slot_taken(inst: Seq<Option<NodeID>>, id: NodeID) -> bool {
    id.idx < inst.len() && inst[id.idx as int] is Some
}

/// The slots after removing, in order, each listed node that is installed
/// at that moment.
pub open spec fn after_removals(inst: Seq<Option<NodeID>>, ids: Seq<NodeID>) -> Seq<Option<NodeID>>
    decreases ids.len(),
{
    if ids.len() == 0 {
        inst
    } else {
        let prev = after_removals(inst, ids.drop_last());
        if installed_at(prev, ids.last()) {
            prev.update(ids.last().idx as int, None)
        } else {
            prev
        }
    }
}

/// The listed nodes that are removed, in order.
pub open spec fn evicted(inst: Seq<Option<NodeID>>, ids: Seq<NodeID>) -> Seq<NodeID>
    decreases ids.len(),
{
    if ids.len() == 0 {
        Seq::empty()
    } else {
        let prev = after_removals(inst, ids.drop_last());
        let e = evicted(inst, ids.drop_last());
        if installed_at(prev, ids.last()) {
            e.push(ids.last())
        } else {
            e
        }
    }
}

/// The slots with `v` put in slot `idx`, growing them with empty slots as
/// needed.
pub open spec fn set_slot(inst: Seq<Option<NodeID>>, idx: int, v: Option<NodeID>) -> Seq<Option<NodeID>> {
    if idx < inst.len() {
        inst.update(idx, v)
    } else {
        (inst + Seq::new((idx - inst.len()) as nat, |i: int| None::<NodeID>)).push(v)
    }
}

/// The slots after installing each new node in order, or the first new
/// node whose slot is taken.
pub open spec fn after_insertions(inst: Seq<Option<NodeID>>, ids: Seq<NodeID>) -> Result<Seq<Option<NodeID>>, NodeID>
    decreases ids.len(),
{
    if ids.len() == 0 {
        Ok(inst)
    } else {
        match after_insertions(inst, ids.drop_last()) {
            Err(x) => Err(x),
            Ok(prev) => if slot_taken(prev, ids.last()) {
                Err(ids.last())
            } else {
                Ok(set_slot(prev, ids.last().idx as int, Some(ids.last())))
            },
        }
    }
}

/// The slots once the old schedule, if any, has given up `nodes_to_remove`.
pub open spec fn slots_after_evictions(
    inst: Seq<Option<NodeID>>,
    has_old: bool,
    nodes_to_remove: Seq<NodeID>,
) -> Seq<Option<NodeID>> {
    if has_old {
        after_removals(inst, nodes_to_remove)
    } else {
        inst
    }
}

/// Installs a new schedule's nodes in the slots of installed processors.
/// When an old schedule is installed, each node of `nodes_to_remove` that is
/// installed, generation included, leaves its slot and is appended to
/// `evict`, whose processors go back with the old schedule. Then each new
/// node takes its slot, which must be free. A schedule compiled for another
/// block size is refused before anything changes.
pub fn apply_schedule_swap(
    installed: &mut Vec<Option<NodeID>>,
    evict: &mut Vec<NodeID>,
    has_old: bool,
    schedule_max_block_frames: usize,
    stream_max_block_frames: usize,
    nodes_to_remove: &Vec<NodeID>,
    new_nodes: &Vec<NodeID>,
) -> (r: Result<(), SwapError>)
    ensures
        schedule_max_block_frames != stream_max_block_frames ==> r == Err::<(), SwapError>(
            SwapError::BlockSizeMismatch,
        ) && final(installed)@ == old(installed)@ && final(evict)@ == old(evict)@,
        schedule_max_block_frames == stream_max_block_frames ==> {
            let mid = slots_after_evictions(old(installed)@, has_old, nodes_to_remove@);
            &&& final(evict)@ == old(evict)@ + if has_old {
                evicted(old(installed)@, nodes_to_remove@)
            } else {
                Seq::empty()
            }
            &&& match after_insertions(mid, new_nodes@) {
                Err(x) => r == Err::<(), SwapError>(SwapError::SlotOccupied(x)),
                Ok(s) => r == Ok::<(), SwapError>(()) && final(installed)@ == s,
            }
        },
{
    if schedule_max_block_frames != stream_max_block_frames {
        return Err(SwapError::BlockSizeMismatch);
    }
    let ghost inst0 = installed@;
    let ghost evict0 = evict@;
    if has_old {
        let mut i: usize = 0;
        while i < nodes_to_remove.len()
            invariant
                i <= nodes_to_remove@.len(),
                installed@ == after_removals(inst0, nodes_to_remove@.subrange(0, i as int)),
                evict@ == evict0 + evicted(inst0, nodes_to_remove@.subrange(0, i as int)),
            decreases nodes_to_remove.len() - i,
        {
            let id = nodes_to_remove[i];
            proof {
                let sub = nodes_to_remove@.subrange(0, i + 1);
                assert(sub.drop_last() =~= nodes_to_remove@.subrange(0, i as int));
                assert(sub.last() == id);
            }
            if id.idx < installed.len() && installed[id.idx] == Some(id) {
                installed.set(id.idx, None);
                let ghost e0 = evict@;
                evict.push(id);
                proof {
                    assert(evict@ =~= evict0 + evicted(inst0, nodes_to_remove@.subrange(0, i + 1)));
                }
            } else {
                proof {
                    assert(!installed_at(installed@, id));
                }
            }
            i = i + 1;
        }
        proof {
            assert(nodes_to_remove@.subrange(0, nodes_to_remove@.len() as int) =~= nodes_to_remove@);
        }
    } else {
        assert(evict@ =~= evict0 + Seq::<NodeID>::empty());
    }
    let ghost mid = installed@;
    let mut k: usize = 0;
    while k < new_nodes.len()
        invariant
            k <= new_nodes@.len(),
            schedule_max_block_frames == stream_max_block_frames,
            inst0 == old(installed)@,
            evict0 == old(evict)@,
            mid == slots_after_evictions(inst0, has_old, nodes_to_remove@),
            evict@ == evict0 + if has_old {
                evicted(inst0, nodes_to_remove@)
            } else {
                Seq::empty()
            },
            after_insertions(mid, new_nodes@.subrange(0, k as int)) == Ok::<Seq<Option<NodeID>>, NodeID>(installed@),
        decreases new_nodes.len() - k,
    {
        let id = new_nodes[k];
        proof {
            let sub = new_nodes@.subrange(0, k + 1);
            assert(sub.drop_last() =~= new_nodes@.subrange(0, k as int));
            assert(sub.last() == id);
        }
        if id.idx < installed.len() {
            if installed[id.idx].is_some() {
                proof {
                    assert(after_insertions(mid, new_nodes@.subrange(0, k + 1)) == Err::<Seq<Option<NodeID>>, NodeID>(id));
                    lemma_insertions_stay_failed(mid, new_nodes@, (k + 1) as int, id);
                }
                return Err(SwapError::SlotOccupied(id));
            }
            installed.set(id.idx, Some(id));
        } else {
            let ghost before = installed@;
            while installed.len() < id.idx
                invariant
                    before.len() <= installed@.len() <= id.idx,
                    installed@ =~= before + Seq::new((installed@.len() - before.len()) as nat, |i: int| None::<NodeID>),
                decreases id.idx - installed.len(),
            {
                installed.push(None);
            }
            installed.push(Some(id));
            proof {
                assert(installed@ =~= set_slot(before, id.idx as int, Some(id)));
            }
        }
        k = k + 1;
    }
    proof {
        assert(new_nodes@.subrange(0, new_nodes@.len() as int) =~= new_nodes@);
    }
    Ok(())
}

/// Once a prefix of the insertions fails, the whole list fails with the
/// same node.
proof fn lemma_insertions_stay_failed(inst: Seq<Option<NodeID>>, ids: Seq<NodeID>, k: int, x: NodeID)
    requires
        0 <= k <= ids.len(),
        after_insertions(inst, ids.subrange(0, k)) == Err::<Seq<Option<NodeID>>, NodeID>(x),
    ensures
        after_insertions(inst, ids) == Err::<Seq<Option<NodeID>>, NodeID>(x),
    decreases ids.len() - k,
{
    if k < ids.len() {
        let sub = ids.subrange(0, k + 1);
        assert(sub.drop_last() =~= ids.subrange(0, k));
        lemma_insertions_stay_failed(inst, ids, k + 1, x);
    } else {
        assert(ids.subrange(0, k) =~= ids);
    }
}

/// Whether the processor still runs after one message: a stop ends it.
pub fn running_after(running: bool, msg: ControlMessageKind) -> (r: bool)
    ensures
        r == (running && msg != ControlMessageKind::Stop),
{
    running && !matches!(msg, ControlMessageKind::Stop)
}

/// Whether the processor still runs after a run of messages.
pub open spec fn running_after_all(running: bool, msgs: Seq<ControlMessageKind>) -> bool
    decreases msgs.len(),
{
    if msgs.len() == 0 {
        running
    } else {
        running_after_all(running, msgs.drop_last()) && msgs.last() != ControlMessageKind::Stop
    }
}

/// Once a stop has arrived, no later message makes the processor run again.
pub proof fn lemma_stop_is_final(running: bool, msgs: Seq<ControlMessageKind>, i: int)
    requires
        0 <= i < msgs.len(),
        msgs[i] == ControlMessageKind::Stop,
    ensures
        !running_after_all(running, msgs),
    decreases msgs.len(),
{
    if i < msgs.len() - 1 {
        lemma_stop_is_final(running, msgs.drop_last(), i);
    }
}

} // verus!

//! An explicit collection, once the others have stopped.

use vstd::prelude::*;

use crate::heap::collect::Collection;
use crate::heap::cycle::law_collection_leaves_nothing_due;
use crate::heap::grant::reached;
use crate::heap::handles::Handle;
use crate::heap::hooks::TypeHooks;
use crate::heap::immix::{GcStats, ImmixAllocator};
use crate::heap::laws::law_handles_keep_their_objects;
use crate::heap::mutators::{MutatorSnapshot, MutatorWorld};
use crate::heap::space::Space;
use crate::heap::swept::SweepReport;
use crate::heap::tables::Tables;

verus! {

/// Collect now, whatever the trigger thinks and whether or not the collector is
/// enabled, and let the world go on. `c.stopped` says whether every other
/// mutator came to rest; `None`, and nothing but a count changed, where one did
/// not. `read` holds the range tables that mutators keep themselves, `words`
/// what was read of the memory to scan.
pub fn major<H: TypeHooks>(
    gc: &mut ImmixAllocator,
    world: &mut MutatorWorld,
    hooks: &mut H,
    read: &Vec<(u64, Vec<(usize, usize)>)>,
    words: &Vec<u64>,
    c: Collection,
) -> (r: Option<SweepReport>)
    requires
        old(gc).wf(),
        old(gc).claims_ok(),
        old(world).inv(),
        c.stopped ==> old(world).at_rest(c.collector),
    ensures
        final(gc).legible(),
        final(gc).registered_ok(),
        final(gc).claims_ok(),
        !c.stopped || !(c.opts.no_reclaim && c.opts.recycle) ==> final(gc).wf(),
        final(world).inv(),
        !final(world).stop_requested,
        final(world).collector == 0,
        final(world).mutators == old(world).mutators,
        r is Some == c.stopped,
        !c.stopped ==> *final(gc) == (ImmixAllocator {
            stats: GcStats {
                stops_abandoned: old(gc).stats.stops_abandoned.wrapping_add(1),
                ..old(gc).stats
            },
            ..*old(gc)
        }) && *final(hooks) == *old(hooks),
        c.stopped ==> {
            &&& final(gc).unclaimed()
            &&& final(gc).paced()
            &&& final(gc).trigger_reset(old(gc), c)
            &&& final(gc).counted(old(gc), r->0.freed@.len())
            &&& final(gc).stats.collections == old(gc).stats.collections.wrapping_add(1)
            &&& !final(gc).trigger.collect_pending
            &&& c.floor > 0 && old(gc).stats.bytes_allocated + old(gc).stats.external_bytes + final(
                gc).trigger.threshold <= u64::MAX ==> !reached(
                final(gc).trigger,
                final(gc).stats,
                0,
            )
            &&& final(gc).handles == old(gc).handles
            &&& forall|h: Handle, q: int|
                old(gc).handles.live(h) is Some && #[trigger] old(gc).addr_in(
                    (old(gc).handles.live(h)->0).0 as int,
                    q,
                ) ==> final(gc).kept(old(gc), q)
            &&& exists|mutators: Seq<MutatorSnapshot>, m: Tables, f: Tables, d: Space|
                old(world).scanned(read@, mutators) && #[trigger] final(gc).cycled(
                    old(gc),
                    old(hooks),
                    mutators,
                    words@,
                    c,
                    m,
                    f,
                    d,
                ) && r->0.tells(d, c.opts)
        },
{
    let snapshots: Vec<MutatorSnapshot> = if c.stopped {
        world.snapshots(read)
    } else {
        Vec::new()
    };
    let ghost before = *gc;
    let r = gc.collect_garbage(hooks, &snapshots, words, c);
    world.release_world();
    proof {
        if c.stopped {
            let (m, f, d) = choose|m: Tables, f: Tables, d: Space| #[trigger]
                gc.cycled(&before, old(hooks), snapshots@, words@, c, m, f, d) && r->0.tells(
                    d,
                    c.opts,
                );
            assert forall|h: Handle, q: int|
                before.handles.live(h) is Some && #[trigger] before.addr_in(
                    (before.handles.live(h)->0).0 as int,
                    q,
                ) implies gc.kept(&before, q) by {
                law_handles_keep_their_objects(
                    &before,
                    gc,
                    old(hooks),
                    snapshots@,
                    words@,
                    c,
                    m,
                    f,
                    d,
                    h,
                    q,
                );
            }
            if c.floor > 0 && before.stats.bytes_allocated + before.stats.external_bytes
                + gc.trigger.threshold <= u64::MAX {
                law_collection_leaves_nothing_due(&before, gc, c, r->0.freed@.len(), 0);
            }
        }
    }
    r
}

} // verus!

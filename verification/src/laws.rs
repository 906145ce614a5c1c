//! Laws of the voice scheduler, stated and proved over its model.

use crate::scheduler::{
    channel_of,
    is_note_off,
    is_note_on,
    key_of,
    lemma_key_bound,
    note_on_route,
    note_on_step,
    pick_from,
    pick_slot,
    route_of,
    step_of,
    takes_drum_route,
    lemma_pick_from_props,
    Routing,
    Sched,
    NOTE_TABLE_SIZE,
    PERCUSSION_CHANNEL,
};
use vstd::prelude::*;

verus! {

/// The scheduler state after a whole command sequence, front to back.
pub open spec fn run_sched(m: Sched, cmds: Seq<u32>) -> Sched
    decreases cmds.len(),
{
    if cmds.len() == 0 {
        m
    } else {
        run_sched(step_of(m, cmds.first()), cmds.drop_first())
    }
}

/// Running one more command is one more step.
pub proof fn lemma_run_sched_push(m: Sched, cmds: Seq<u32>, c: u32)
    ensures
        run_sched(m, cmds.push(c)) == step_of(run_sched(m, cmds), c),
    decreases cmds.len(),
{
    lemma_key_bound(c);
    if cmds.len() == 0 {
        assert(cmds.push(c).drop_first() =~= Seq::<u32>::empty());
        assert(cmds.push(c).first() == c);
        assert(run_sched(step_of(m, c), Seq::<u32>::empty()) == step_of(m, c));
    } else {
        assert(cmds.push(c).first() == cmds.first());
        assert(cmds.push(c).drop_first() =~= cmds.drop_first().push(c));
        lemma_run_sched_push(step_of(m, cmds.first()), cmds.drop_first(), c);
    }
}

/// One step keeps the model well formed and never touches the
/// capacities or the percussion route.
pub proof fn lemma_step_wf(m: Sched, cmd: u32)
    requires
        m.wf(),
    ensures
        step_of(m, cmd).wf(),
        step_of(m, cmd).caps == m.caps,
        step_of(m, cmd).drum == m.drum,
        step_of(m, cmd).stacks.len() == m.stacks.len(),
{
    let m2 = step_of(m, cmd);
    let k = key_of(cmd);
    lemma_key_bound(cmd);
    if !takes_drum_route(m, cmd) && is_note_on(cmd) && pick_slot(m) is Some {
        lemma_pick_from_props(m, m.nslots());
        let i = pick_slot(m)->0;
        assert forall|k0: int, j: int|
            0 <= k0 < m2.stacks.len() && 0 <= j < m2.stacks[k0].len() implies (
        #[trigger] m2.stacks[k0][j]) < m2.nslots() by {
            if k0 == k && j == m2.stacks[k0].len() - 1 {
            } else {
                assert(m2.stacks[k0][j] == m.stacks[k0][j]);
            }
        }
    } else if !takes_drum_route(m, cmd) && !is_note_on(cmd) && is_note_off(cmd)
        && m.stacks[k].len() > 0 {
        assert forall|k0: int, j: int|
            0 <= k0 < m2.stacks.len() && 0 <= j < m2.stacks[k0].len() implies (
        #[trigger] m2.stacks[k0][j]) < m2.nslots() by {
            assert(m2.stacks[k0][j] == m.stacks[k0][j]);
        }
    }
}

/// A whole run keeps the model well formed, with the same capacities
/// and percussion route.
pub proof fn lemma_run_sched_wf(m: Sched, cmds: Seq<u32>)
    requires
        m.wf(),
    ensures
        run_sched(m, cmds).wf(),
        run_sched(m, cmds).caps == m.caps,
        run_sched(m, cmds).drum == m.drum,
    decreases cmds.len(),
{
    if cmds.len() > 0 {
        lemma_step_wf(m, cmds.first());
        lemma_run_sched_wf(step_of(m, cmds.first()), cmds.drop_first());
    }
}

/// Voice-stealing determinism: whatever slot the pick yields is the
/// unique lowest-load slot among the eligible ones, with the lowest
/// index breaking ties; and the pick fails exactly when no slot is
/// eligible. The pick is a function of the load state alone, so
/// replaying a fixed load history always routes the same way.
pub proof fn lemma_pick_slot_minimal(m: Sched)
    ensures
        match pick_slot(m) {
            Option::Some(i) => m.eligible(i) && forall|j: int|
                m.eligible(j) ==> m.load(i) < m.load(j) || (m.load(i) == m.load(j) && i <= j),
            Option::None => forall|j: int| !m.eligible(j),
        },
{
    lemma_pick_from_minimal(m, m.nslots());
    match pick_slot(m) {
        Option::Some(i) => {
            assert forall|j: int|
                m.eligible(j) implies m.load(i) < m.load(j) || (m.load(i) == m.load(j) && i
                <= j) by {
                assert(0 <= j < m.nslots());
            }
        },
        Option::None => {
            assert forall|j: int| !m.eligible(j) by {
                if 0 <= j < m.nslots() {
                    assert(!m.eligible(j));
                }
            }
        },
    }
}

/// No slot but the picked one satisfies the choice rule: the admitted
/// slot is unique.
pub proof fn lemma_pick_slot_unique(m: Sched, i: int)
    requires
        m.eligible(i),
        forall|j: int| m.eligible(j) ==> m.load(i) < m.load(j) || (m.load(i) == m.load(j) && i <= j),
    ensures
        pick_slot(m) == Option::<int>::Some(i),
{
    lemma_pick_slot_minimal(m);
    match pick_slot(m) {
        Option::Some(p) => {
            assert(m.load(p) < m.load(i) || (m.load(p) == m.load(i) && p <= i));
            assert(m.load(i) < m.load(p) || (m.load(i) == m.load(p) && i <= p));
            assert(p == i);
        },
        Option::None => {
            assert(!m.eligible(i));
        },
    }
}

proof fn lemma_pick_from_minimal(m: Sched, k: int)
    ensures
        match pick_from(m, k) {
            Option::Some(i) => 0 <= i < k && m.eligible(i) && forall|j: int|
                0 <= j < k && m.eligible(j) ==> m.load(i) < m.load(j) || (m.load(i) == m.load(j)
                    && i <= j),
            Option::None => forall|j: int| 0 <= j < k ==> !m.eligible(j),
        },
    decreases k,
{
    if k > 0 {
        lemma_pick_from_minimal(m, k - 1);
    }
}

/// Retrigger and overlap: from any state that admits both, triggering
/// the same key twice and then releasing it twice releases the two
/// assignments in reverse trigger order, and leaves the state exactly
/// as it was: no dangling entry remains.
pub proof fn lemma_retrigger_lifo(m: Sched, on_cmd: u32, off_cmd: u32)
    requires
        m.wf(),
        is_note_on(on_cmd),
        is_note_off(off_cmd),
        key_of(off_cmd) == key_of(on_cmd),
        channel_of(off_cmd) == channel_of(on_cmd),
        !(m.drum && channel_of(on_cmd) == PERCUSSION_CHANNEL),
        pick_slot(m) is Some,
        pick_slot(step_of(m, on_cmd)) is Some,
    ensures
        ({
            let i1 = pick_slot(m)->0;
            let m1 = step_of(m, on_cmd);
            let i2 = pick_slot(m1)->0;
            let m2 = step_of(m1, on_cmd);
            let m3 = step_of(m2, off_cmd);
            &&& route_of(m2, off_cmd) == Routing::ToSlot(i2 as usize, off_cmd)
            &&& route_of(m3, off_cmd) == Routing::ToSlot(i1 as usize, off_cmd)
            &&& step_of(m3, off_cmd) == m
        }),
{
    let k = key_of(on_cmd);
    lemma_key_bound(on_cmd);
    assert(key_of(off_cmd) == k);
    let i1 = pick_slot(m)->0;
    let m1 = step_of(m, on_cmd);
    let i2 = pick_slot(m1)->0;
    let m2 = step_of(m1, on_cmd);
    assert(m1.stacks[k] == m.stacks[k].push(i1 as usize));
    assert(m2.stacks[k] == m1.stacks[k].push(i2 as usize));
    let m3 = step_of(m2, off_cmd);
    assert(m2.stacks[k].last() == i2 as usize);
    assert(m2.stacks[k].drop_last() =~= m1.stacks[k]);
    assert(m3.stacks =~= m2.stacks.update(k, m1.stacks[k]));
    assert(m3.stacks[k].last() == i1 as usize);
    let m4 = step_of(m3, off_cmd);
    assert(m3.stacks[k].drop_last() =~= m.stacks[k]);
    assert(m4.stacks =~= m3.stacks.update(k, m.stacks[k]));
    assert(m4.stacks =~= m.stacks);
    assert(m4 == m);
}

/// A percussion-channel note with no percussion route attached goes
/// through ordinary melodic voice stealing: it is admitted to the
/// picked slot and recorded in the routing table, not dropped.
pub proof fn lemma_percussion_without_kit_is_melodic(m: Sched, cmd: u32)
    requires
        m.wf(),
        !m.drum,
        channel_of(cmd) == PERCUSSION_CHANNEL,
        is_note_on(cmd),
    ensures
        route_of(m, cmd) == note_on_route(m, cmd),
        step_of(m, cmd) == note_on_step(m, cmd),
        pick_slot(m) is Some ==> route_of(m, cmd) == Routing::ToSlot(
            pick_slot(m)->0 as usize,
            cmd,
        ) && step_of(m, cmd).stacks[key_of(cmd)] == m.stacks[key_of(cmd)].push(
            pick_slot(m)->0 as usize,
        ),
{
    lemma_key_bound(cmd);
    if pick_slot(m) is Some {
        lemma_pick_from_props(m, m.nslots());
    }
}

/// How many commands of the sequence are melodic note-ons for key `k`:
/// note-ons not taken by a percussion bypass.
pub open spec fn on_count(drum: bool, cmds: Seq<u32>, k: int) -> int
    decreases cmds.len(),
{
    if cmds.len() == 0 {
        0
    } else {
        (if is_note_on(cmds.first()) && key_of(cmds.first()) == k && !(drum && channel_of(
            cmds.first(),
        ) == PERCUSSION_CHANNEL) {
            1int
        } else {
            0int
        }) + on_count(drum, cmds.drop_first(), k)
    }
}

/// How many commands of the sequence are melodic note-offs for key `k`.
pub open spec fn off_count(drum: bool, cmds: Seq<u32>, k: int) -> int
    decreases cmds.len(),
{
    if cmds.len() == 0 {
        0
    } else {
        (if is_note_off(cmds.first()) && key_of(cmds.first()) == k && !(drum && channel_of(
            cmds.first(),
        ) == PERCUSSION_CHANNEL) {
            1int
        } else {
            0int
        }) + off_count(drum, cmds.drop_first(), k)
    }
}

/// A command sequence is properly paired when, for every key, the whole
/// sequence holds as many melodic note-offs as note-ons, and no prefix
/// holds more offs than ons.
pub open spec fn properly_paired(drum: bool, cmds: Seq<u32>) -> bool {
    &&& forall|k: int| on_count(drum, cmds, k) == off_count(drum, cmds, k)
    &&& forall|k: int, i: int|
        0 <= i <= cmds.len() ==> #[trigger] off_count(drum, cmds.take(i), k) <= on_count(
            drum,
            cmds.take(i),
            k,
        )
}

proof fn lemma_on_count_push(drum: bool, cmds: Seq<u32>, c: u32, k: int)
    ensures
        on_count(drum, cmds.push(c), k) == on_count(drum, cmds, k) + if is_note_on(c) && key_of(c)
            == k && !(drum && channel_of(c) == PERCUSSION_CHANNEL) {
            1int
        } else {
            0int
        },
    decreases cmds.len(),
{
    if cmds.len() == 0 {
        assert(cmds.push(c).first() == c);
        assert(cmds.push(c).drop_first() =~= Seq::<u32>::empty());
        assert(on_count(drum, Seq::<u32>::empty(), k) == 0);
    } else {
        assert(cmds.push(c).first() == cmds.first());
        assert(cmds.push(c).drop_first() =~= cmds.drop_first().push(c));
        lemma_on_count_push(drum, cmds.drop_first(), c, k);
    }
}

proof fn lemma_off_count_push(drum: bool, cmds: Seq<u32>, c: u32, k: int)
    ensures
        off_count(drum, cmds.push(c), k) == off_count(drum, cmds, k) + if is_note_off(c) && key_of(
            c,
        ) == k && !(drum && channel_of(c) == PERCUSSION_CHANNEL) {
            1int
        } else {
            0int
        },
    decreases cmds.len(),
{
    if cmds.len() == 0 {
        assert(cmds.push(c).first() == c);
        assert(cmds.push(c).drop_first() =~= Seq::<u32>::empty());
        assert(off_count(drum, Seq::<u32>::empty(), k) == 0);
    } else {
        assert(cmds.push(c).first() == cmds.first());
        assert(cmds.push(c).drop_first() =~= cmds.drop_first().push(c));
        lemma_off_count_push(drum, cmds.drop_first(), c, k);
    }
}

proof fn lemma_drain_rec(m: Sched, total: Seq<u32>, done: Seq<u32>, rest: Seq<u32>)
    requires
        m.wf(),
        total == done + rest,
        forall|k: int|
            0 <= k < NOTE_TABLE_SIZE ==> (#[trigger] m.stacks[k]).len() + off_count(m.drum, done, k)
                <= on_count(m.drum, done, k),
        forall|k: int, i: int|
            0 <= i <= total.len() ==> #[trigger] off_count(m.drum, total.take(i), k) <= on_count(
                m.drum,
                total.take(i),
                k,
            ),
        forall|k: int| on_count(m.drum, total, k) == off_count(m.drum, total, k),
    ensures
        run_sched(m, rest).all_quiet(),
        run_sched(m, rest).wf(),
    decreases rest.len(),
{
    if rest.len() == 0 {
        assert(done =~= total);
        assert forall|k: int| 0 <= k < m.stacks.len() implies (#[trigger] m.stacks[k]).len()
            == 0 by {
            assert(m.stacks[k].len() + off_count(m.drum, done, k) <= on_count(m.drum, done, k));
            assert(on_count(m.drum, total, k) == off_count(m.drum, total, k));
        }
    } else {
        let c = rest.first();
        lemma_key_bound(c);
        let m2 = step_of(m, c);
        let done2 = done.push(c);
        let rest2 = rest.drop_first();
        lemma_step_wf(m, c);
        assert(total =~= done2 + rest2);
        assert(total.take(done.len() as int + 1) =~= done2);
        let kc = key_of(c);
        assert forall|k: int|
            0 <= k < NOTE_TABLE_SIZE implies (#[trigger] m2.stacks[k]).len() + off_count(
            m2.drum,
            done2,
            k,
        ) <= on_count(m2.drum, done2, k) by {
            lemma_on_count_push(m.drum, done, c, k);
            lemma_off_count_push(m.drum, done, c, k);
            if takes_drum_route(m, c) {
                assert(m2.stacks[k] == m.stacks[k]);
            } else if is_note_on(c) {
                match pick_slot(m) {
                    Option::Some(i) => {
                        if k == kc {
                            assert(m2.stacks[k] == m.stacks[k].push(i as usize));
                        } else {
                            assert(m2.stacks[k] == m.stacks[k]);
                        }
                    },
                    Option::None => {
                        assert(m2.stacks[k] == m.stacks[k]);
                    },
                }
            } else if is_note_off(c) {
                if m.stacks[kc].len() > 0 {
                    if k == kc {
                        assert(m2.stacks[k] == m.stacks[k].drop_last());
                    } else {
                        assert(m2.stacks[k] == m.stacks[k]);
                    }
                } else {
                    assert(m2.stacks[k] == m.stacks[k]);
                    if k == kc {
                        assert(off_count(m.drum, total.take(done.len() as int + 1), k) <= on_count(
                            m.drum,
                            total.take(done.len() as int + 1),
                            k,
                        ));
                        assert(off_count(m.drum, done2, k) <= on_count(m.drum, done2, k));
                    }
                }
            } else {
                assert(m2.stacks[k] == m.stacks[k]);
            }
        }
        lemma_drain_rec(m2, total, done2, rest2);
    }
}

/// After a properly paired command sequence, the routing table of a
/// fresh scheduler is empty again and every slot's load is back at
/// zero.
pub proof fn lemma_paired_sequence_drains(m: Sched, cmds: Seq<u32>)
    requires
        m.wf(),
        m.all_quiet(),
        properly_paired(m.drum, cmds),
    ensures
        run_sched(m, cmds).all_quiet(),
        run_sched(m, cmds).wf(),
        forall|i: int| run_sched(m, cmds).load(i) == 0,
{
    assert(cmds.take(cmds.len() as int) =~= cmds);
    assert(Seq::<u32>::empty() + cmds =~= cmds);
    lemma_drain_rec(m, cmds, Seq::<u32>::empty(), cmds);
    let mf = run_sched(m, cmds);
    assert forall|i: int| mf.load(i) == 0 by {
        crate::scheduler::lemma_all_quiet_load_zero(mf, i);
    }
}

} // verus!

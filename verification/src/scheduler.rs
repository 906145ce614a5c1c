//! The polyphonic voice-distribution scheduler.
//!
//! A [`MultiSynth`] partitions a total voice budget across a number of
//! playback slots, routes packed note commands to slots, and keeps the
//! per-slot load together with a routing table of per-key slot stacks.
//! The playback engines themselves live outside: every routing method
//! returns a [`Routing`] decision that says which slot, if any, receives
//! the command, and the caller forwards it.
//!
//! A packed command carries a status byte in its low byte (high nibble
//! the kind, low nibble the channel), the note in the second byte and the
//! velocity in the third.

use vstd::arithmetic::div_mod::{lemma_fundamental_div_mod, lemma_mod_bound};
use vstd::prelude::*;

verus! {

/// Number of distinct routing keys: sixteen channels times two hundred
/// and fifty-six note values.
pub const NOTE_TABLE_SIZE: usize = 4096;

/// The reserved percussion channel.
pub const PERCUSSION_CHANNEL: u8 = 9;

/// Where one command goes: to a single slot, to every slot, or nowhere.
#[derive(Clone, Copy, Debug, PartialEq, Eq, Structural)]
pub enum Routing {
    /// Forward the command to the slot with this index.
    ToSlot(usize, u32),
    /// Forward the command to every realized slot.
    Broadcast(u32),
    /// The command is dropped: no slot receives it.
    Dropped,
}

/// The mathematical model of a scheduler: per-slot capacities, one stack
/// of slot indices per routing key, and whether a percussion route is
/// attached (always to slot 0).
pub ghost struct Sched {
    pub caps: Seq<u32>,
    pub stacks: Seq<Seq<usize>>,
    pub drum: bool,
}

/// The status byte of a packed command.
pub open spec fn status_of(cmd: u32) -> u8 {
    (cmd & 0xFF) as u8
}

/// The channel: the low nibble of the status byte.
pub open spec fn channel_of(cmd: u32) -> u8 {
    status_of(cmd) & 0x0F
}

/// The command kind: the high nibble of the status byte.
pub open spec fn nibble_of(cmd: u32) -> u8 {
    status_of(cmd) & 0xF0
}

/// The note byte of a packed command.
pub open spec fn note_of(cmd: u32) -> u8 {
    ((cmd >> 8) & 0xFF) as u8
}

/// The velocity byte of a packed command.
pub open spec fn velocity_of(cmd: u32) -> u8 {
    ((cmd >> 16) & 0xFF) as u8
}

/// The routing key of a command: channel and note combined.
pub open spec fn key_of(cmd: u32) -> int {
    channel_of(cmd) * 256 + note_of(cmd)
}

/// Every command's routing key lies inside the table.
pub proof fn lemma_key_bound(cmd: u32)
    ensures
        0 <= key_of(cmd) < NOTE_TABLE_SIZE,
{
    assert(((cmd & 0xFF) as u8) & 0x0F < 16) by (bit_vector);
}

/// A note-on: status nibble 0x90 with a non-zero velocity.
pub open spec fn is_note_on(cmd: u32) -> bool {
    nibble_of(cmd) == 0x90 && velocity_of(cmd) != 0
}

/// A note-off: status nibble 0x80, or a note-on with velocity zero.
pub open spec fn is_note_off(cmd: u32) -> bool {
    nibble_of(cmd) == 0x80 || (nibble_of(cmd) == 0x90 && velocity_of(cmd) == 0)
}

/// A channel-wide message: any status nibble from 0xA0 through 0xEF.
pub open spec fn is_channel_msg(cmd: u32) -> bool {
    0xA0 <= nibble_of(cmd) <= 0xEF
}

/// How often `slot` occurs in one stack.
pub open spec fn count_in(st: Seq<usize>, slot: int) -> int
    decreases st.len(),
{
    if st.len() == 0 {
        0
    } else {
        count_in(st.drop_last(), slot) + if st.last() == slot {
            1int
        } else {
            0int
        }
    }
}

/// The load of `slot`: how often it occurs across all stacks.
pub open spec fn slot_load(stacks: Seq<Seq<usize>>, slot: int) -> int
    decreases stacks.len(),
{
    if stacks.len() == 0 {
        0
    } else {
        slot_load(stacks.drop_last(), slot) + count_in(stacks.last(), slot)
    }
}

/// The sum of a capacity or load vector.
pub open spec fn sum_u32(s: Seq<u32>) -> int
    decreases s.len(),
{
    if s.len() == 0 {
        0
    } else {
        sum_u32(s.drop_last()) + s.last()
    }
}

/// An empty routing table.
pub open spec fn empty_stacks() -> Seq<Seq<usize>> {
    Seq::new(NOTE_TABLE_SIZE as nat, |k: int| Seq::<usize>::empty())
}

impl Sched {
    /// Number of realized slots.
    pub open spec fn nslots(self) -> int {
        self.caps.len() as int
    }

    /// The load of one slot, derived from the routing table.
    pub open spec fn load(self, i: int) -> int {
        slot_load(self.stacks, i)
    }

    /// A slot is eligible for a new note while its load is strictly below
    /// its capacity.
    pub open spec fn eligible(self, i: int) -> bool {
        0 <= i < self.nslots() && self.load(i) < self.caps[i]
    }

    /// Model well-formedness: full routing table, every recorded slot
    /// index in range, and a percussion route only with a slot to point
    /// at.
    pub open spec fn wf(self) -> bool {
        &&& self.stacks.len() == NOTE_TABLE_SIZE
        &&& forall|k: int, j: int|
            0 <= k < self.stacks.len() && 0 <= j < self.stacks[k].len() ==> (
            #[trigger] self.stacks[k][j]) < self.nslots()
        &&& (self.drum ==> self.nslots() > 0)
    }

    /// Every stack is empty.
    pub open spec fn all_quiet(self) -> bool {
        forall|k: int| 0 <= k < self.stacks.len() ==> (#[trigger] self.stacks[k]).len() == 0
    }
}

/// The lowest-load, lowest-index eligible slot among the first `k`, if
/// any: ties keep the earlier slot.
pub open spec fn pick_from(m: Sched, k: int) -> Option<int>
    decreases k,
{
    if k <= 0 {
        None
    } else {
        let prev = pick_from(m, k - 1);
        if !m.eligible(k - 1) {
            prev
        } else {
            match prev {
                Option::None => Option::Some(k - 1),
                Option::Some(j) => if m.load(k - 1) < m.load(j) {
                    Option::Some(k - 1)
                } else {
                    prev
                },
            }
        }
    }
}

/// The slot a note-on is admitted to, if any.
pub open spec fn pick_slot(m: Sched) -> Option<int> {
    pick_from(m, m.nslots())
}

/// Whether a command takes the percussion bypass.
pub open spec fn takes_drum_route(m: Sched, cmd: u32) -> bool {
    m.drum && channel_of(cmd) == PERCUSSION_CHANNEL
}

/// Where a note-on goes: to the picked slot, or dropped under voice
/// starvation.
pub open spec fn note_on_route(m: Sched, cmd: u32) -> Routing {
    match pick_slot(m) {
        Option::Some(i) => Routing::ToSlot(i as usize, cmd),
        Option::None => Routing::Dropped,
    }
}

/// Where a note-off goes: to the most recently recorded slot for its
/// key, or dropped when no note of that key is held.
pub open spec fn note_off_route(m: Sched, cmd: u32) -> Routing {
    if m.stacks[key_of(cmd)].len() > 0 {
        Routing::ToSlot(m.stacks[key_of(cmd)].last(), cmd)
    } else {
        Routing::Dropped
    }
}

/// The routing decision for one command against a model state.
pub open spec fn route_of(m: Sched, cmd: u32) -> Routing {
    if takes_drum_route(m, cmd) {
        if nibble_of(cmd) == 0x90 || nibble_of(cmd) == 0x80 {
            Routing::ToSlot(0, cmd)
        } else {
            Routing::Dropped
        }
    } else if is_note_on(cmd) {
        note_on_route(m, cmd)
    } else if is_note_off(cmd) {
        note_off_route(m, cmd)
    } else if is_channel_msg(cmd) {
        Routing::Broadcast(cmd)
    } else {
        Routing::Dropped
    }
}

/// The model state after one command: an admitted note-on pushes the
/// chosen slot onto its key's stack, a note-off pops the most recent
/// entry, everything else leaves the table alone.
pub open spec fn note_on_step(m: Sched, cmd: u32) -> Sched {
    match pick_slot(m) {
        Option::Some(i) => Sched {
            stacks: m.stacks.update(key_of(cmd), m.stacks[key_of(cmd)].push(i as usize)),
            ..m
        },
        Option::None => m,
    }
}

pub open spec fn note_off_step(m: Sched, cmd: u32) -> Sched {
    if m.stacks[key_of(cmd)].len() > 0 {
        Sched { stacks: m.stacks.update(key_of(cmd), m.stacks[key_of(cmd)].drop_last()), ..m }
    } else {
        m
    }
}

pub open spec fn step_of(m: Sched, cmd: u32) -> Sched {
    if takes_drum_route(m, cmd) {
        m
    } else if is_note_on(cmd) {
        note_on_step(m, cmd)
    } else if is_note_off(cmd) {
        note_off_step(m, cmd)
    } else {
        m
    }
}

/// The capacity list for a budget of `total` voices over `n` requested
/// slots: `total / n` voices each, the first `total % n` slots one more,
/// and slots that would get nothing are not realized.
pub open spec fn distributed_caps(total: int, n: int) -> Seq<u32>
    recommends
        1 <= n,
{
    let len = if total >= n {
        n
    } else {
        total
    };
    Seq::new(
        len as nat,
        |i: int|
            (total / n + if i < total % n {
                1int
            } else {
                0int
            }) as u32,
    )
}

/// The requested instance count clamped to the available parallel units
/// and raised to at least one.
pub open spec fn clamped_instances(requested: int, units: int) -> int {
    let c = if requested > units {
        units
    } else {
        requested
    };
    if c == 0 {
        1
    } else {
        c
    }
}

/// Relies on num_cpus::get: the number of available logical processors,
/// documented to be at least one.
#[verifier::external_body]
fn parallel_unit_count() -> (r: usize)
    ensures
        1 <= r,
{
    num_cpus::get()
}

proof fn lemma_sum_push(s: Seq<u32>, x: u32)
    ensures
        sum_u32(s.push(x)) == sum_u32(s) + x,
{
    assert(s.push(x).drop_last() =~= s);
    assert(s.push(x).last() == x);
}

/// Splits a voice budget across `num_instances` slots.
///
/// The realized capacities sum to the whole budget, every realized slot
/// holds at least one voice and at most the rounded-up even share, and
/// the list is non-increasing.
pub fn distribute_voices(total_voices: u32, num_instances: usize) -> (caps: Vec<u32>)
    requires
        1 <= num_instances <= u32::MAX,
    ensures
        caps@ == distributed_caps(total_voices as int, num_instances as int),
        sum_u32(caps@) == total_voices,
        forall|i: int|
            0 <= i < caps@.len() ==> 1 <= #[trigger] caps@[i] <= (total_voices + num_instances - 1)
                / (num_instances as int),
        forall|i: int, j: int| 0 <= i <= j < caps@.len() ==> caps@[i] >= caps@[j],
{
    let n32: u32 = num_instances as u32;
    let base: u32 = total_voices / n32;
    let rem: u32 = total_voices % n32;
    let realized: usize = if base > 0 {
        num_instances
    } else {
        rem as usize
    };
    let ghost total = total_voices as int;
    let ghost n = num_instances as int;
    proof {
        lemma_fundamental_div_mod(total, n);
        lemma_mod_bound(total, n);
        if base > 0 {
            assert(n * (total / n) >= n) by (nonlinear_arith)
                requires
                    n >= 1,
                    total / n >= 1,
            ;
            assert(total >= n);
        } else {
            assert(n * (total / n) == 0) by (nonlinear_arith)
                requires
                    total / n == 0,
            ;
            assert(total == rem);
        }
        assert(realized as int == distributed_caps(total, n).len());
        if rem > 0 {
            assert(n * (total / n) >= total / n) by (nonlinear_arith)
                requires
                    n >= 1,
                    total / n >= 0,
            ;
            assert(base < 0xFFFFFFFF);
        }
    }
    let mut caps: Vec<u32> = Vec::new();
    let mut i: usize = 0;
    while i < realized
        invariant
            i <= realized,
            1 <= num_instances <= u32::MAX,
            total == total_voices as int,
            n == num_instances as int,
            base == total / n,
            rem == total % n,
            0 <= rem < n,
            total == n * (total / n) + total % n,
            rem > 0 ==> base < 0xFFFFFFFF,
            realized == if base > 0 {
                num_instances as int
            } else {
                rem as int
            },
            realized as int == distributed_caps(total, n).len(),
            caps@.len() == i,
            forall|j: int| 0 <= j < i ==> caps@[j] == distributed_caps(total, n)[j],
            sum_u32(caps@) == i * base + if i <= rem {
                i as int
            } else {
                rem as int
            },
        decreases realized - i,
    {
        let c: u32 = if (i as u32) < rem {
            base + 1
        } else {
            base
        };
        proof {
            lemma_sum_push(caps@, c);
            assert((i + 1) * base == i * base + base) by (nonlinear_arith);
        }
        caps.push(c);
        i = i + 1;
    }
    proof {
        assert(caps@ =~= distributed_caps(total, n));
        if base > 0 {
            assert(sum_u32(caps@) == n * (total / n) + rem) by (nonlinear_arith)
                requires
                    sum_u32(caps@) == realized * base + rem,
                    realized == n,
                    base == total / n,
                    rem < realized,
            ;
        } else {
            assert(realized as int * base == 0) by (nonlinear_arith)
                requires
                    base == 0,
            ;
        }
        assert(sum_u32(caps@) == total);
        let ceil = (total + n - 1) / n;
        if rem == 0 {
            assert(total + n - 1 == n * base + (n - 1)) by (nonlinear_arith)
                requires
                    total == n * base + rem,
                    rem == 0,
            ;
            vstd::arithmetic::div_mod::lemma_div_multiples_vanish_fancy(base as int, n - 1, n);
            assert(ceil == base);
        } else {
            assert(total + n - 1 == n * (base + 1) + (rem - 1)) by (nonlinear_arith)
                requires
                    total == n * base + rem,
            ;
            vstd::arithmetic::div_mod::lemma_div_multiples_vanish_fancy(base + 1, rem - 1, n);
            assert(ceil == base + 1);
        }
        assert forall|i0: int| 0 <= i0 < caps@.len() implies 1 <= #[trigger] caps@[i0] <= ceil by {
            assert(caps@[i0] == distributed_caps(total, n)[i0]);
        }
    }
    caps
}


proof fn lemma_count_in_nonneg(st: Seq<usize>, slot: int)
    ensures
        count_in(st, slot) >= 0,
    decreases st.len(),
{
    if st.len() > 0 {
        lemma_count_in_nonneg(st.drop_last(), slot);
    }
}

proof fn lemma_count_in_push(st: Seq<usize>, x: usize, slot: int)
    ensures
        count_in(st.push(x), slot) == count_in(st, slot) + if x == slot {
            1int
        } else {
            0int
        },
{
    assert(st.push(x).drop_last() =~= st);
}

proof fn lemma_slot_load_update(stacks: Seq<Seq<usize>>, k: int, v: Seq<usize>, slot: int)
    requires
        0 <= k < stacks.len(),
    ensures
        slot_load(stacks.update(k, v), slot) == slot_load(stacks, slot) - count_in(
            stacks[k],
            slot,
        ) + count_in(v, slot),
    decreases stacks.len(),
{
    let s2 = stacks.update(k, v);
    if k == stacks.len() - 1 {
        assert(s2.drop_last() =~= stacks.drop_last());
        assert(s2.last() == v);
    } else {
        assert(s2.drop_last() =~= stacks.drop_last().update(k, v));
        assert(s2.last() == stacks.last());
        lemma_slot_load_update(stacks.drop_last(), k, v, slot);
    }
}

proof fn lemma_slot_load_lower(stacks: Seq<Seq<usize>>, k: int, slot: int)
    requires
        0 <= k < stacks.len(),
    ensures
        slot_load(stacks, slot) >= count_in(stacks[k], slot),
    decreases stacks.len(),
{
    lemma_count_in_nonneg(stacks.last(), slot);
    if k == stacks.len() - 1 {
        lemma_slot_load_nonneg(stacks.drop_last(), slot);
    } else {
        lemma_slot_load_lower(stacks.drop_last(), k, slot);
    }
}

proof fn lemma_slot_load_nonneg(stacks: Seq<Seq<usize>>, slot: int)
    ensures
        slot_load(stacks, slot) >= 0,
    decreases stacks.len(),
{
    if stacks.len() > 0 {
        lemma_slot_load_nonneg(stacks.drop_last(), slot);
        lemma_count_in_nonneg(stacks.last(), slot);
    }
}

proof fn lemma_slot_load_all_quiet(stacks: Seq<Seq<usize>>, slot: int)
    requires
        forall|k: int| 0 <= k < stacks.len() ==> (#[trigger] stacks[k]).len() == 0,
    ensures
        slot_load(stacks, slot) == 0,
    decreases stacks.len(),
{
    if stacks.len() > 0 {
        assert(stacks.last() == stacks[stacks.len() - 1]);
        lemma_slot_load_all_quiet(stacks.drop_last(), slot);
    }
}

/// An empty routing table holds no load in any slot.
pub proof fn lemma_all_quiet_load_zero(m: Sched, i: int)
    requires
        m.all_quiet(),
    ensures
        m.load(i) == 0,
{
    lemma_slot_load_all_quiet(m.stacks, i);
}

/// The scheduler: per-slot capacity and load bookkeeping plus the
/// routing table. The playback engines are owned by the caller; the
/// scheduler only decides where commands go.
pub struct MultiSynth {
    /// Capacity of each realized slot.
    pub max_voices: Vec<u32>,
    /// Current load of each realized slot.
    pub note_counts: Vec<u32>,
    /// Per-key stacks of slot indices, in trigger order.
    pub stacks: Vec<Vec<usize>>,
    /// Whether percussion wavetables were supplied.
    pub has_drum_kit: bool,
    /// The configured total voice budget.
    pub max_total_voices: u32,
}

impl MultiSynth {
    /// The routing table as a sequence of stacks.
    pub open spec fn stacks_view(&self) -> Seq<Seq<usize>> {
        Seq::new(self.stacks@.len(), |k: int| self.stacks@[k]@)
    }

    /// The model state of this scheduler.
    pub open spec fn model(&self) -> Sched {
        Sched {
            caps: self.max_voices@,
            stacks: self.stacks_view(),
            drum: self.has_drum_kit && self.max_voices@.len() > 0,
        }
    }

    /// Well-formedness: the model is well formed, every load counter
    /// agrees with the routing table, stays within its capacity, every
    /// realized slot has capacity, and the capacities sum to the budget.
    pub open spec fn wf(&self) -> bool {
        &&& self.model().wf()
        &&& self.note_counts@.len() == self.max_voices@.len()
        &&& forall|i: int|
            0 <= i < self.note_counts@.len() ==> (#[trigger] self.note_counts@[i]) as int
                == self.model().load(i)
        &&& forall|i: int|
            0 <= i < self.note_counts@.len() ==> (#[trigger] self.note_counts@[i])
                <= self.max_voices@[i]
        &&& forall|i: int| 0 <= i < self.max_voices@.len() ==> (#[trigger] self.max_voices@[i]) >= 1
        &&& sum_u32(self.max_voices@) == self.max_total_voices
    }
}

fn zero_counts(n: usize) -> (v: Vec<u32>)
    ensures
        v@.len() == n,
        forall|i: int| 0 <= i < n ==> (#[trigger] v@[i]) == 0,
{
    let mut v: Vec<u32> = Vec::new();
    while v.len() < n
        invariant
            v@.len() <= n,
            forall|i: int| 0 <= i < v@.len() ==> (#[trigger] v@[i]) == 0,
        decreases n - v@.len(),
    {
        v.push(0);
    }
    v
}

fn empty_table() -> (v: Vec<Vec<usize>>)
    ensures
        v@.len() == NOTE_TABLE_SIZE,
        forall|k: int| 0 <= k < v@.len() ==> (#[trigger] v@[k])@.len() == 0,
{
    let mut v: Vec<Vec<usize>> = Vec::new();
    while v.len() < NOTE_TABLE_SIZE
        invariant
            v@.len() <= NOTE_TABLE_SIZE,
            forall|k: int| 0 <= k < v@.len() ==> (#[trigger] v@[k])@.len() == 0,
        decreases NOTE_TABLE_SIZE - v@.len(),
    {
        v.push(Vec::new());
    }
    v
}

impl MultiSynth {
    /// Builds a scheduler for a voice budget spread over `num_instances`
    /// slots, clamped to the machine's parallel units and to at least
    /// one. A percussion route is attached to slot 0 exactly when
    /// percussion wavetables were supplied and a slot was realized.
    pub fn new(max_total_voices: u32, num_instances: usize, has_drum_kit: bool) -> (s: MultiSynth)
        ensures
            s.wf(),
            s.max_total_voices == max_total_voices,
            exists|units: int|
                1 <= units <= u32::MAX && s.model().caps == distributed_caps(
                    max_total_voices as int,
                    clamped_instances(num_instances as int, units),
                ),
            s.model().stacks =~~= empty_stacks(),
            s.model().drum == (has_drum_kit && s.model().caps.len() > 0),
            s.has_drum_kit == has_drum_kit,
    {
        let units0 = parallel_unit_count();
        let units: usize = if units0 > (u32::MAX as usize) {
            u32::MAX as usize
        } else {
            units0
        };
        let clamped: usize = if num_instances > units {
            units
        } else {
            num_instances
        };
        let n: usize = if clamped == 0 {
            1
        } else {
            clamped
        };
        proof {
            assert(n as int == clamped_instances(num_instances as int, units as int));
        }
        let max_voices = distribute_voices(max_total_voices, n);
        let note_counts = zero_counts(max_voices.len());
        let stacks = empty_table();
        let s = MultiSynth {
            max_voices,
            note_counts,
            stacks,
            has_drum_kit,
            max_total_voices,
        };
        proof {
            assert(s.stacks_view() =~~= empty_stacks());
            assert forall|i: int| 0 <= i < s.note_counts@.len() implies (
            #[trigger] s.note_counts@[i]) as int == s.model().load(i) by {
                lemma_slot_load_all_quiet(s.model().stacks, i);
            }
        }
        s
    }
}


/// What the pick yields: a chosen slot is eligible and in range, and a
/// miss means no slot among the first `k` is eligible.
pub proof fn lemma_pick_from_props(m: Sched, k: int)
    ensures
        match pick_from(m, k) {
            Option::Some(j) => 0 <= j < k && m.eligible(j),
            Option::None => forall|j: int| 0 <= j < k ==> !m.eligible(j),
        },
    decreases k,
{
    if k > 0 {
        lemma_pick_from_props(m, k - 1);
    }
}

impl MultiSynth {
    /// The slot index a usize option stands for.
    pub open spec fn opt_as_int(o: Option<usize>) -> Option<int> {
        match o {
            Option::Some(b) => Option::Some(b as int),
            Option::None => Option::None,
        }
    }

    fn note_on(&mut self, key: usize, cmd: u32) -> (r: Routing)
        requires
            old(self).wf(),
            key as int == key_of(cmd),
            key < NOTE_TABLE_SIZE,
        ensures
            final(self).wf(),
            final(self).model() == note_on_step(old(self).model(), cmd),
            r == note_on_route(old(self).model(), cmd),
            final(self).max_voices == old(self).max_voices,
            final(self).has_drum_kit == old(self).has_drum_kit,
            final(self).max_total_voices == old(self).max_total_voices,
    {
        let ghost m0 = self.model();
        let nslots = self.max_voices.len();
        let mut best: Option<usize> = None;
        let mut i: usize = 0;
        while i < nslots
            invariant
                self == old(self),
                self.wf(),
                m0 == self.model(),
                nslots == self.max_voices@.len(),
                i <= nslots,
                Self::opt_as_int(best) == pick_from(m0, i as int),
                best is Some ==> best->0 < nslots,
            decreases nslots - i,
        {
            if self.note_counts[i] < self.max_voices[i] {
                match best {
                    None => { best = Some(i) },
                    Some(b) => {
                        if self.note_counts[i] < self.note_counts[b] {
                            best = Some(i);
                        }
                    },
                }
            }
            i = i + 1;
        }
        proof {
            assert(Self::opt_as_int(best) == pick_slot(m0));
        }
        match best {
            None => Routing::Dropped,
            Some(idx) => {
                let ghost old_stack = m0.stacks[key as int];
                self.stacks[key].push(idx);
                let c = self.note_counts[idx];
                proof {
                    lemma_pick_from_props(m0, m0.nslots());
                    assert(c < self.max_voices@[idx as int]);
                }
                self.note_counts.set(idx, c + 1);
                proof {
                    let m1 = self.model();
                    assert(m1.stacks =~~= m0.stacks.update(key as int, old_stack.push(idx)));
                    assert(m1 == note_on_step(m0, cmd));
                    assert forall|s: int| 0 <= s < self.note_counts@.len() implies (
                    #[trigger] self.note_counts@[s]) as int == m1.load(s) by {
                        lemma_slot_load_update(m0.stacks, key as int, old_stack.push(idx), s);
                        lemma_count_in_push(old_stack, idx, s);
                    }
                    assert(m1.wf());
                }
                Routing::ToSlot(idx, cmd)
            },
        }
    }

    fn note_off(&mut self, key: usize, cmd: u32) -> (r: Routing)
        requires
            old(self).wf(),
            key as int == key_of(cmd),
            key < NOTE_TABLE_SIZE,
        ensures
            final(self).wf(),
            final(self).model() == note_off_step(old(self).model(), cmd),
            r == note_off_route(old(self).model(), cmd),
            final(self).max_voices == old(self).max_voices,
            final(self).has_drum_kit == old(self).has_drum_kit,
            final(self).max_total_voices == old(self).max_total_voices,
    {
        let ghost m0 = self.model();
        if self.stacks[key].len() == 0 {
            return Routing::Dropped;
        }
        let ghost old_stack = m0.stacks[key as int];
        let popped = self.stacks[key].pop();
        match popped {
            None => {
                proof {
                    assert(false);
                }
                Routing::Dropped
            },
            Some(idx) => {
                proof {
                    assert(idx == old_stack.last());
                    assert(idx < m0.nslots());
                    lemma_slot_load_lower(m0.stacks, key as int, idx as int);
                    assert(count_in(old_stack, idx as int) >= 1) by {
                        lemma_count_in_nonneg(old_stack.drop_last(), idx as int);
                    }
                    assert(self.note_counts@[idx as int] >= 1);
                }
                let c = self.note_counts[idx];
                self.note_counts.set(idx, c - 1);
                proof {
                    let m1 = self.model();
                    assert(m1.stacks =~~= m0.stacks.update(key as int, old_stack.drop_last()));
                    assert(m1 == note_off_step(m0, cmd));
                    assert forall|s: int| 0 <= s < self.note_counts@.len() implies (
                    #[trigger] self.note_counts@[s]) as int == m1.load(s) by {
                        lemma_slot_load_update(m0.stacks, key as int, old_stack.drop_last(), s);
                        assert(count_in(old_stack, s) == count_in(old_stack.drop_last(), s)
                            + if old_stack.last() == s {
                            1int
                        } else {
                            0int
                        });
                    }
                    assert forall|s: int| 0 <= s < self.note_counts@.len() implies (
                    #[trigger] self.note_counts@[s]) <= self.max_voices@[s] by {}
                    assert(m1.wf());
                }
                Routing::ToSlot(idx, cmd)
            },
        }
    }

    /// Routes one packed command and updates the bookkeeping.
    ///
    /// Percussion-channel note commands take the bypass to slot 0 when a
    /// percussion route exists; a note-on is admitted to the unique
    /// lowest-load, lowest-index slot with free capacity or silently
    /// dropped; a note-off releases the most recently triggered holder of
    /// its key; channel-wide messages are broadcast; anything else is
    /// ignored. The caller forwards the command as the returned decision
    /// says.
    pub fn queue_midi_cmd(&mut self, cmd: u32) -> (r: Routing)
        requires
            old(self).wf(),
        ensures
            final(self).wf(),
            final(self).model() == step_of(old(self).model(), cmd),
            r == route_of(old(self).model(), cmd),
            final(self).max_voices == old(self).max_voices,
            final(self).has_drum_kit == old(self).has_drum_kit,
            final(self).max_total_voices == old(self).max_total_voices,
    {
        let status = (cmd & 0xFF) as u8;
        let note = ((cmd >> 8) & 0xFF) as u8;
        let velocity = ((cmd >> 16) & 0xFF) as u8;
        let channel = status & 0x0F;
        let nibble = status & 0xF0;
        proof {
            assert(((cmd & 0xFF) as u8) & 0x0F < 16) by (bit_vector);
        }
        if channel == PERCUSSION_CHANNEL && self.has_drum_kit && self.max_voices.len() > 0 {
            if nibble == 0x90 || nibble == 0x80 {
                Routing::ToSlot(0, cmd)
            } else {
                Routing::Dropped
            }
        } else {
            let key = (channel as usize) * 256 + (note as usize);
            if nibble == 0x90 && velocity != 0 {
                self.note_on(key, cmd)
            } else if nibble == 0x80 || (nibble == 0x90 && velocity == 0) {
                self.note_off(key, cmd)
            } else if 0xA0 <= nibble && nibble <= 0xEF {
                Routing::Broadcast(cmd)
            } else {
                Routing::Dropped
            }
        }
    }
}


/// The note-off command that releases the key `k`: status byte 0x80 with
/// the key's channel, the key's note, velocity zero.
pub open spec fn off_cmd_of(k: int) -> u32 {
    (128 + k / 256 + (k % 256) * 256) as u32
}

/// The flush entries for one stack: one note-off per held entry, bottom
/// up, each aimed at the recorded slot.
pub open spec fn stack_flush(st: Seq<usize>, k: int) -> Seq<(usize, u32)> {
    st.map_values(|slot: usize| (slot, off_cmd_of(k)))
}

/// The flush entries of the keys below `k`, in key order.
pub open spec fn flush_upto(m: Sched, k: int) -> Seq<(usize, u32)>
    decreases k,
{
    if k <= 0 {
        Seq::empty()
    } else {
        flush_upto(m, k - 1) + stack_flush(m.stacks[k - 1], k - 1)
    }
}

/// Every note-off owed when the scheduler is rebuilt: one per routing
/// table entry, aimed at the slot that holds the note.
pub open spec fn flush_list(m: Sched) -> Seq<(usize, u32)> {
    flush_upto(m, NOTE_TABLE_SIZE as int)
}

proof fn lemma_sum_le(a: Seq<u32>, b: Seq<u32>)
    requires
        a.len() == b.len(),
        forall|i: int| 0 <= i < a.len() ==> a[i] <= b[i],
    ensures
        sum_u32(a) <= sum_u32(b),
    decreases a.len(),
{
    if a.len() > 0 {
        lemma_sum_le(a.drop_last(), b.drop_last());
    }
}

proof fn lemma_sum_take_le(s: Seq<u32>, k: int)
    requires
        0 <= k <= s.len(),
    ensures
        sum_u32(s.take(k)) <= sum_u32(s),
    decreases s.len(),
{
    if k == s.len() {
        assert(s.take(k) =~= s);
    } else if s.len() > 0 {
        assert(s.take(k) =~= s.drop_last().take(k));
        lemma_sum_take_le(s.drop_last(), k);
    }
}

proof fn lemma_sum_take_step(s: Seq<u32>, k: int)
    requires
        0 <= k < s.len(),
    ensures
        sum_u32(s.take(k + 1)) == sum_u32(s.take(k)) + s[k],
{
    assert(s.take(k + 1).drop_last() =~= s.take(k));
    assert(s.take(k + 1).last() == s[k]);
}

impl MultiSynth {
    fn collect_flush(&self) -> (flush: Vec<(usize, u32)>)
        requires
            self.wf(),
        ensures
            flush@ == flush_list(self.model()),
    {
        let ghost m0 = self.model();
        let mut flush: Vec<(usize, u32)> = Vec::new();
        let mut key: usize = 0;
        proof {
            assert(flush@ =~= flush_upto(m0, 0));
        }
        while key < NOTE_TABLE_SIZE
            invariant
                self.wf(),
                m0 == self.model(),
                key <= NOTE_TABLE_SIZE,
                flush@ == flush_upto(m0, key as int),
            decreases NOTE_TABLE_SIZE - key,
        {
            let st_len = self.stacks[key].len();
            let ch = (key / 256) as u32;
            let nt = (key % 256) as u32;
            proof {
                vstd::arithmetic::div_mod::lemma_div_is_ordered(key as int, 4095, 256);
                lemma_mod_bound(key as int, 256);
            }
            let off_cmd: u32 = 128 + ch + nt * 256;
            proof {
                assert(off_cmd == off_cmd_of(key as int));
                assert(stack_flush(m0.stacks[key as int], key as int).take(0)
                    =~= Seq::<(usize, u32)>::empty());
                assert(flush@ =~= flush_upto(m0, key as int) + stack_flush(
                    m0.stacks[key as int],
                    key as int,
                ).take(0));
            }
            let mut j: usize = 0;
            while j < st_len
                invariant
                    self.wf(),
                    m0 == self.model(),
                    key < NOTE_TABLE_SIZE,
                    st_len == m0.stacks[key as int].len(),
                    j <= st_len,
                    off_cmd == off_cmd_of(key as int),
                    flush@ == flush_upto(m0, key as int) + stack_flush(
                        m0.stacks[key as int],
                        key as int,
                    ).take(j as int),
                decreases st_len - j,
            {
                let slot = self.stacks[key][j];
                flush.push((slot, off_cmd));
                proof {
                    let sf = stack_flush(m0.stacks[key as int], key as int);
                    assert(sf[j as int] == (slot, off_cmd));
                    assert(sf.take(j + 1) =~= sf.take(j as int).push(sf[j as int]));
                    assert(flush@ =~= flush_upto(m0, key as int) + sf.take(j + 1));
                }
                j = j + 1;
            }
            proof {
                let sf = stack_flush(m0.stacks[key as int], key as int);
                assert(sf.take(st_len as int) =~= sf);
                assert(flush@ =~= flush_upto(m0, key as int + 1));
            }
            key = key + 1;
        }
        flush
    }

    fn rebalance(&mut self, new_total: u32, requested: usize) -> (flush: Vec<(usize, u32)>)
        requires
            old(self).wf(),
        ensures
            final(self).wf(),
            flush@ == flush_list(old(self).model()),
            exists|units: int|
                1 <= units <= u32::MAX && final(self).model().caps == distributed_caps(
                    new_total as int,
                    clamped_instances(requested as int, units),
                ),
            final(self).model().stacks =~~= empty_stacks(),
            final(self).max_total_voices == new_total,
            final(self).has_drum_kit == old(self).has_drum_kit,
    {
        let flush = self.collect_flush();
        let units0 = parallel_unit_count();
        let units: usize = if units0 > (u32::MAX as usize) {
            u32::MAX as usize
        } else {
            units0
        };
        let clamped: usize = if requested > units {
            units
        } else {
            requested
        };
        let n: usize = if clamped == 0 {
            1
        } else {
            clamped
        };
        proof {
            assert(n as int == clamped_instances(requested as int, units as int));
        }
        self.max_voices = distribute_voices(new_total, n);
        let counts = zero_counts(self.max_voices.len());
        self.note_counts = counts;
        let table = empty_table();
        self.stacks = table;
        self.max_total_voices = new_total;
        proof {
            assert(self.stacks_view() =~~= empty_stacks());
            assert forall|i: int| 0 <= i < self.note_counts@.len() implies (
            #[trigger] self.note_counts@[i]) as int == self.model().load(i) by {
                lemma_slot_load_all_quiet(self.model().stacks, i);
            }
        }
        flush
    }

    /// Changes the total voice budget, keeping the realized slot count as
    /// the requested partition width. Every held note is first flushed:
    /// the returned list carries one synthesized note-off per routing
    /// table entry, aimed at the slot holding it, and the caller must
    /// forward each before rebuilding its engines to the new capacities.
    pub fn set_max_polyphony(&mut self, max_total_voices: u32) -> (flush: Vec<(usize, u32)>)
        requires
            old(self).wf(),
        ensures
            final(self).wf(),
            flush@ == flush_list(old(self).model()),
            exists|units: int|
                1 <= units <= u32::MAX && final(self).model().caps == distributed_caps(
                    max_total_voices as int,
                    clamped_instances(old(self).model().nslots(), units),
                ),
            final(self).model().stacks =~~= empty_stacks(),
            final(self).max_total_voices == max_total_voices,
            final(self).has_drum_kit == old(self).has_drum_kit,
    {
        let n = self.max_voices.len();
        let flush = self.rebalance(max_total_voices, n);
        proof {
            let u = choose|units: int|
                1 <= units <= u32::MAX && self.model().caps == distributed_caps(
                    max_total_voices as int,
                    clamped_instances(n as int, units),
                );
            assert(1 <= u <= u32::MAX && self.model().caps == distributed_caps(
                max_total_voices as int,
                clamped_instances(old(self).model().nslots(), u),
            ));
        }
        flush
    }

    /// Changes the slot count under the same total voice budget, with
    /// the same flush duty as `set_max_polyphony`.
    pub fn set_num_instances(&mut self, new_num_instances: usize) -> (flush: Vec<(usize, u32)>)
        requires
            old(self).wf(),
        ensures
            final(self).wf(),
            flush@ == flush_list(old(self).model()),
            exists|units: int|
                1 <= units <= u32::MAX && final(self).model().caps == distributed_caps(
                    old(self).max_total_voices as int,
                    clamped_instances(new_num_instances as int, units),
                ),
            final(self).model().stacks =~~= empty_stacks(),
            final(self).max_total_voices == old(self).max_total_voices,
            final(self).has_drum_kit == old(self).has_drum_kit,
    {
        let v = self.max_total_voices;
        self.rebalance(v, new_num_instances)
    }

    /// The current total polyphony: the sum of all slot loads. It never
    /// exceeds the configured voice budget.
    pub fn get_polyphony(&self) -> (r: u32)
        requires
            self.wf(),
        ensures
            r as int == sum_u32(self.note_counts@),
            r <= self.max_total_voices,
    {
        let n = self.note_counts.len();
        let mut acc: u32 = 0;
        let mut i: usize = 0;
        proof {
            assert(self.note_counts@.take(0) =~= Seq::<u32>::empty());
        }
        while i < n
            invariant
                self.wf(),
                n == self.note_counts@.len(),
                i <= n,
                acc as int == sum_u32(self.note_counts@.take(i as int)),
            decreases n - i,
        {
            proof {
                lemma_sum_take_step(self.note_counts@, i as int);
                lemma_sum_le(self.note_counts@.take(i + 1), self.max_voices@.take(i + 1));
                lemma_sum_take_le(self.max_voices@, i + 1);
            }
            acc = acc + self.note_counts[i];
            i = i + 1;
        }
        proof {
            assert(self.note_counts@.take(n as int) =~= self.note_counts@);
            lemma_sum_le(self.note_counts@, self.max_voices@);
        }
        acc
    }

    /// The maximum total polyphony: the sum of all slot capacities,
    /// which is exactly the configured voice budget.
    pub fn get_max_polyphony(&self) -> (r: u32)
        requires
            self.wf(),
        ensures
            r == self.max_total_voices,
            r as int == sum_u32(self.max_voices@),
    {
        let n = self.max_voices.len();
        let mut acc: u32 = 0;
        let mut i: usize = 0;
        proof {
            assert(self.max_voices@.take(0) =~= Seq::<u32>::empty());
        }
        while i < n
            invariant
                self.wf(),
                n == self.max_voices@.len(),
                i <= n,
                acc as int == sum_u32(self.max_voices@.take(i as int)),
            decreases n - i,
        {
            proof {
                lemma_sum_take_step(self.max_voices@, i as int);
                lemma_sum_take_le(self.max_voices@, i + 1);
            }
            acc = acc + self.max_voices[i];
            i = i + 1;
        }
        proof {
            assert(self.max_voices@.take(n as int) =~= self.max_voices@);
        }
        acc
    }

    /// How many slots were realized.
    pub fn get_num_instances(&self) -> (r: usize)
        ensures
            r == self.max_voices@.len(),
    {
        self.max_voices.len()
    }

    /// The stack of slot indices currently holding the given key, oldest
    /// first.
    pub fn get_note_stack(&self, channel: u8, note: u8) -> (r: Vec<usize>)
        requires
            self.wf(),
            channel < 16,
        ensures
            r@ == self.stacks_view()[channel as int * 256 + note as int],
    {
        let key = (channel as usize) * 256 + (note as usize);
        let n = self.stacks[key].len();
        let mut r: Vec<usize> = Vec::new();
        let mut i: usize = 0;
        while i < n
            invariant
                self.wf(),
                key == channel as int * 256 + note as int,
                key < NOTE_TABLE_SIZE,
                n == self.stacks@[key as int]@.len(),
                i <= n,
                r@ == self.stacks@[key as int]@.take(i as int),
            decreases n - i,
        {
            let x = self.stacks[key][i];
            r.push(x);
            proof {
                assert(r@ =~= self.stacks@[key as int]@.take(i + 1));
            }
            i = i + 1;
        }
        proof {
            assert(self.stacks@[key as int]@.take(n as int) =~= self.stacks_view()[key as int]);
        }
        r
    }
}

} // verus!

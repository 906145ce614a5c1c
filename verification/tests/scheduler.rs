use polyvoice::scheduler::{distribute_voices, MultiSynth, Routing};

fn note_on(channel: u8, note: u8, velocity: u8) -> u32 {
    (0x90 | channel as u32) | ((note as u32) << 8) | ((velocity as u32) << 16)
}

fn note_off(channel: u8, note: u8) -> u32 {
    (0x80 | channel as u32) | ((note as u32) << 8)
}

fn scheduler_with(caps: Vec<u32>, has_drum_kit: bool) -> MultiSynth {
    let total: u32 = caps.iter().sum();
    let n = caps.len();
    MultiSynth {
        note_counts: vec![0; n],
        max_voices: caps,
        stacks: (0..4096).map(|_| Vec::new()).collect(),
        has_drum_kit,
        max_total_voices: total,
    }
}

#[test]
fn capacities_ten_over_three() {
    assert_eq!(distribute_voices(10, 3), vec![4, 3, 3]);
}

#[test]
fn capacities_ten_over_four() {
    assert_eq!(distribute_voices(10, 4), vec![3, 3, 2, 2]);
}

#[test]
fn capacities_sum_to_budget() {
    for (v, n) in [(1u32, 1usize), (7, 2), (16, 5), (100, 7), (3, 8), (512, 6)] {
        let caps = distribute_voices(v, n);
        assert_eq!(caps.iter().sum::<u32>(), v);
        let ceil = (v as usize + n - 1) / n;
        for &c in &caps {
            assert!(c >= 1);
            assert!((c as usize) <= ceil);
        }
        for w in caps.windows(2) {
            assert!(w[0] >= w[1]);
        }
    }
}

#[test]
fn capacities_budget_below_slots() {
    assert_eq!(distribute_voices(2, 4), vec![1, 1]);
    assert_eq!(distribute_voices(0, 3), Vec::<u32>::new());
}

#[test]
fn new_scheduler_single_instance() {
    let mut s = MultiSynth::new(10, 1, false);
    assert_eq!(s.get_num_instances(), 1);
    assert_eq!(s.get_max_polyphony(), 10);
    assert_eq!(s.get_polyphony(), 0);
    assert_eq!(s.queue_midi_cmd(note_on(0, 60, 100)), Routing::ToSlot(0, note_on(0, 60, 100)));
    assert_eq!(s.get_polyphony(), 1);
}

#[test]
fn lowest_load_lowest_index_wins() {
    let mut s = scheduler_with(vec![2, 2], false);
    // Ties go to the lower index, then the lower load wins.
    assert_eq!(s.queue_midi_cmd(note_on(0, 60, 90)), Routing::ToSlot(0, note_on(0, 60, 90)));
    assert_eq!(s.queue_midi_cmd(note_on(0, 61, 90)), Routing::ToSlot(1, note_on(0, 61, 90)));
    assert_eq!(s.queue_midi_cmd(note_on(0, 62, 90)), Routing::ToSlot(0, note_on(0, 62, 90)));
    assert_eq!(s.queue_midi_cmd(note_on(0, 63, 90)), Routing::ToSlot(1, note_on(0, 63, 90)));
    assert_eq!(s.get_polyphony(), 4);
    // The budget is exhausted: admission control drops the next note.
    assert_eq!(s.queue_midi_cmd(note_on(0, 64, 90)), Routing::Dropped);
    assert_eq!(s.get_polyphony(), 4);
}

#[test]
fn rerunning_the_same_sequence_routes_the_same() {
    let cmds = [
        note_on(0, 60, 90),
        note_on(0, 64, 90),
        note_off(0, 60),
        note_on(1, 67, 80),
        note_on(0, 60, 70),
        note_off(0, 64),
    ];
    let mut a = scheduler_with(vec![2, 1, 1], false);
    let mut b = scheduler_with(vec![2, 1, 1], false);
    let ra: Vec<Routing> = cmds.iter().map(|&c| a.queue_midi_cmd(c)).collect();
    let rb: Vec<Routing> = cmds.iter().map(|&c| b.queue_midi_cmd(c)).collect();
    assert_eq!(ra, rb);
    assert_eq!(a.get_polyphony(), b.get_polyphony());
}

#[test]
fn retrigger_releases_in_reverse_order() {
    let mut s = scheduler_with(vec![1, 1], false);
    let on = note_on(0, 60, 100);
    let off = note_off(0, 60);
    assert_eq!(s.queue_midi_cmd(on), Routing::ToSlot(0, on));
    assert_eq!(s.queue_midi_cmd(on), Routing::ToSlot(1, on));
    assert_eq!(s.get_note_stack(0, 60), vec![0, 1]);
    // The most recently triggered assignment is released first.
    assert_eq!(s.queue_midi_cmd(off), Routing::ToSlot(1, off));
    assert_eq!(s.queue_midi_cmd(off), Routing::ToSlot(0, off));
    assert_eq!(s.get_note_stack(0, 60), Vec::<usize>::new());
    assert_eq!(s.get_polyphony(), 0);
}

#[test]
fn paired_sequence_drains_even_with_starvation() {
    let mut s = scheduler_with(vec![1], false);
    assert_eq!(s.queue_midi_cmd(note_on(0, 60, 90)), Routing::ToSlot(0, note_on(0, 60, 90)));
    // Starved: silently dropped, never recorded.
    assert_eq!(s.queue_midi_cmd(note_on(0, 61, 90)), Routing::Dropped);
    // The off for the starved note finds no entry and is dropped too.
    assert_eq!(s.queue_midi_cmd(note_off(0, 61)), Routing::Dropped);
    assert_eq!(s.queue_midi_cmd(note_off(0, 60)), Routing::ToSlot(0, note_off(0, 60)));
    assert_eq!(s.get_polyphony(), 0);
    assert_eq!(s.get_note_stack(0, 60), Vec::<usize>::new());
    assert_eq!(s.get_note_stack(0, 61), Vec::<usize>::new());
}

#[test]
fn off_without_on_is_dropped() {
    let mut s = scheduler_with(vec![2], false);
    assert_eq!(s.queue_midi_cmd(note_off(0, 42)), Routing::Dropped);
    assert_eq!(s.get_polyphony(), 0);
}

#[test]
fn note_on_with_zero_velocity_is_an_off() {
    let mut s = scheduler_with(vec![2], false);
    let on = note_on(0, 60, 100);
    s.queue_midi_cmd(on);
    assert_eq!(s.get_polyphony(), 1);
    let silent_on = note_on(0, 60, 0);
    assert_eq!(s.queue_midi_cmd(silent_on), Routing::ToSlot(0, silent_on));
    assert_eq!(s.get_polyphony(), 0);
}

#[test]
fn percussion_bypasses_capacity_tracking() {
    let mut s = scheduler_with(vec![1, 1], true);
    let on = note_on(9, 36, 120);
    let off = note_off(9, 36);
    assert_eq!(s.queue_midi_cmd(on), Routing::ToSlot(0, on));
    // No bookkeeping for the bypass: no load, no table entry.
    assert_eq!(s.get_polyphony(), 0);
    assert_eq!(s.get_note_stack(9, 36), Vec::<usize>::new());
    assert_eq!(s.queue_midi_cmd(off), Routing::ToSlot(0, off));
    // Other statuses on the percussion channel are ignored.
    let pressure = 0xA9u32 | (36 << 8) | (50 << 16);
    assert_eq!(s.queue_midi_cmd(pressure), Routing::Dropped);
}

#[test]
fn percussion_without_kit_uses_melodic_routing() {
    let mut s = scheduler_with(vec![1, 1], false);
    let on = note_on(9, 36, 120);
    assert_eq!(s.queue_midi_cmd(on), Routing::ToSlot(0, on));
    // Routed through ordinary voice stealing: counted and recorded.
    assert_eq!(s.get_polyphony(), 1);
    assert_eq!(s.get_note_stack(9, 36), vec![0]);
}

#[test]
fn channel_messages_are_broadcast() {
    let mut s = scheduler_with(vec![1, 1], false);
    let cc = 0xB0u32 | (7 << 8) | (100 << 16);
    assert_eq!(s.queue_midi_cmd(cc), Routing::Broadcast(cc));
    let bend = 0xE3u32 | (0 << 8) | (64 << 16);
    assert_eq!(s.queue_midi_cmd(bend), Routing::Broadcast(bend));
    assert_eq!(s.get_polyphony(), 0);
}

#[test]
fn unrecognized_statuses_are_ignored() {
    let mut s = scheduler_with(vec![2], false);
    assert_eq!(s.queue_midi_cmd(0x70), Routing::Dropped);
    assert_eq!(s.queue_midi_cmd(0xF0), Routing::Dropped);
    assert_eq!(s.get_polyphony(), 0);
}

#[test]
fn rebalance_flushes_held_notes() {
    let mut s = scheduler_with(vec![1, 1], false);
    s.queue_midi_cmd(note_on(0, 60, 90));
    s.queue_midi_cmd(note_on(2, 65, 90));
    assert_eq!(s.get_polyphony(), 2);
    let flush = s.set_max_polyphony(6);
    // One synthesized note-off per held entry, aimed at the holding slot.
    assert_eq!(flush.len(), 2);
    assert!(flush.contains(&(0usize, note_off(0, 60))));
    assert!(flush.contains(&(1usize, note_off(2, 65))));
    assert_eq!(s.get_polyphony(), 0);
    assert_eq!(s.get_max_polyphony(), 6);
}

#[test]
fn set_num_instances_keeps_budget() {
    let mut s = MultiSynth::new(8, 1, false);
    s.queue_midi_cmd(note_on(0, 60, 90));
    let flush = s.set_num_instances(1);
    assert_eq!(flush, vec![(0usize, note_off(0, 60))]);
    assert_eq!(s.get_num_instances(), 1);
    assert_eq!(s.get_max_polyphony(), 8);
    assert_eq!(s.get_polyphony(), 0);
}

use agent_polyrhythm::{
    detect_alignments, find_alignments, gcd, groove_point, lcm, Beat, Polyrhythm,
    PolyrhythmicScheduler, Ratio, RhythmicCycle, SyncopationDetector, FULL_LEVEL, TICKS_PER_BEAT,
};

#[test]
fn gcd_and_lcm_values() {
    assert_eq!(gcd(12, 18), 6);
    assert_eq!(gcd(7, 0), 7);
    assert_eq!(gcd(0, 7), 7);
    assert_eq!(gcd(0, 0), 0);
    assert_eq!(lcm(4, 6), 12);
    assert_eq!(lcm(1, 30), 30);
    assert_eq!(lcm(0, 5), 0);
}

#[test]
fn beat_helpers() {
    assert!(Beat::zero().is_zero());
    assert!(!Beat(1).is_zero());
    assert_eq!(Beat::beats(-2), Beat(-2 * TICKS_PER_BEAT));
}

#[test]
fn triggers_with_negative_period_magnitude() {
    // a negative period triggers on multiples of its magnitude, as `%` does
    let cycle = RhythmicCycle::new("back", Beat::beats(-3));
    assert!(cycle.triggers_at(Beat::beats(6)));
    assert!(!cycle.triggers_at(Beat::beats(4)));
    // a zero period never triggers
    let still = RhythmicCycle::new("still", Beat(0));
    assert!(!still.triggers_at(Beat::beats(0)));
    // the next trigger of a negative period still lies after the beat
    assert_eq!(cycle.next_trigger_after(Beat::beats(1)), Beat::beats(3));
    assert_eq!(cycle.next_trigger_after(Beat::beats(3)), Beat::beats(6));
}

#[test]
fn next_trigger_before_phase_is_phase() {
    let cycle = RhythmicCycle::new("late", Beat::beats(4)).with_phase(Beat::beats(10));
    assert_eq!(cycle.next_trigger_after(Beat::beats(3)), Beat::beats(10));
    assert_eq!(cycle.next_trigger_after(Beat::beats(11)), Beat::beats(14));
    assert_eq!(cycle.next_trigger_after(Beat::beats(10)), Beat::beats(14));
}

#[test]
fn next_trigger_is_a_trigger_with_none_between() {
    let cycle = RhythmicCycle::new("odd", Beat::beats(3)).with_phase(Beat::beats(1));
    let start = Beat::beats(5);
    let next = cycle.next_trigger_after(start);
    assert_eq!(next, Beat::beats(7));
    assert!(cycle.triggers_at(next));
    assert!(!cycle.triggers_at(Beat::beats(6)));
}

#[test]
fn triggers_up_to_starts_at_first_trigger_after_origin() {
    let cycle = RhythmicCycle::new("early", Beat::beats(2)).with_phase(Beat::beats(-1));
    let triggers = cycle.triggers_up_to(Beat::beats(5));
    assert_eq!(triggers, vec![Beat::beats(1), Beat::beats(3), Beat::beats(5)]);
    for t in &triggers {
        assert!(cycle.triggers_at(*t));
    }
    // nothing listed before the first trigger
    let late = RhythmicCycle::new("late", Beat::beats(2)).with_phase(Beat::beats(9));
    assert!(late.triggers_up_to(Beat::beats(5)).is_empty());
    assert_eq!(late.count_triggers(Beat::beats(5)), 0);
}

#[test]
fn count_triggers_with_negative_phase() {
    let cycle = RhythmicCycle::new("c", Beat::beats(2)).with_phase(Beat::beats(-1));
    assert_eq!(cycle.count_triggers(Beat::beats(4)), 2); // 1 and 3
    let on_origin = RhythmicCycle::new("d", Beat::beats(3)).with_phase(Beat::beats(-6));
    assert_eq!(on_origin.triggers_up_to(Beat::beats(6)), vec![Beat::beats(0), Beat::beats(3), Beat::beats(6)]);
}

#[test]
fn listed_triggers_are_triggers() {
    let cycle = RhythmicCycle::new("p", Beat::beats(3)).with_phase(Beat::beats(2));
    for t in cycle.triggers_up_to(Beat::beats(20)) {
        assert!(cycle.triggers_at(t));
    }
    assert_eq!(cycle.count_triggers(Beat::beats(20)), 7); // 2, 5, 8, 11, 14, 17, 20
}

#[test]
fn velocity_edges() {
    let plain = RhythmicCycle::new("plain", Beat::beats(4));
    assert_eq!(plain.velocity_at(Beat::beats(2)), FULL_LEVEL);
    let accented = RhythmicCycle::new("accent", Beat::beats(4))
        .with_phase(Beat::beats(1))
        .with_velocity_pattern(vec![900_000, 100_000]);
    // before the phase
    assert_eq!(accented.velocity_at(Beat::beats(0)), 0);
    // first half of the period, then second half, then wrapping around
    assert_eq!(accented.velocity_at(Beat::beats(2)), 900_000);
    assert_eq!(accented.velocity_at(Beat::beats(3)), 100_000);
    assert_eq!(accented.velocity_at(Beat::beats(5)), 900_000);
}

#[test]
fn all_triggers_in_order() {
    let pr = Polyrhythm::simple("3:2", Beat::beats(2), Beat::beats(3));
    let triggers = pr.all_triggers(Beat::beats(6));
    assert_eq!(
        triggers,
        vec![
            (0, Beat::beats(0)),
            (1, Beat::beats(0)),
            (0, Beat::beats(2)),
            (1, Beat::beats(3)),
            (0, Beat::beats(4)),
            (0, Beat::beats(6)),
            (1, Beat::beats(6)),
        ]
    );
}

#[test]
fn groove_point_rounds_and_skips_short_periods() {
    let cycles = vec![
        RhythmicCycle::new("a", Beat(2 * TICKS_PER_BEAT + TICKS_PER_BEAT / 2)), // rounds to 3
        RhythmicCycle::new("b", Beat(TICKS_PER_BEAT / 3)),                     // rounds to 0
        RhythmicCycle::new("c", Beat::beats(-4)),                               // left out
        RhythmicCycle::new("d", Beat::beats(4)),
    ];
    assert_eq!(groove_point(&cycles), Beat::beats(12));
    let none = vec![RhythmicCycle::new("z", Beat(0))];
    assert_eq!(groove_point(&none), Beat(0));
    assert_eq!(groove_point(&[]), Beat(0));
}

#[test]
fn alignments_with_three_voices() {
    let cycles = vec![
        RhythmicCycle::new("a", Beat::beats(2)),
        RhythmicCycle::new("b", Beat::beats(3)),
        RhythmicCycle::new("c", Beat::beats(4)),
    ];
    let details = detect_alignments(&cycles, Beat::beats(12));
    let beats: Vec<Beat> = details.iter().map(|a| a.beat).collect();
    assert_eq!(
        beats,
        vec![Beat::beats(0), Beat::beats(4), Beat::beats(6), Beat::beats(8), Beat::beats(12)]
    );
    assert_eq!(details[0].aligned_cycles, vec![0, 1, 2]);
    assert!(details[0].is_full_sync);
    assert_eq!(details[1].aligned_cycles, vec![0, 2]);
    assert!(!details[1].is_full_sync);
    assert_eq!(details[2].aligned_cycles, vec![0, 1]);
    assert_eq!(find_alignments(&cycles, Beat::beats(12)), beats);
}

#[test]
fn schedule_ids_priorities_and_order() {
    let cycle_a = RhythmicCycle::new("voice-a", Beat::beats(2))
        .with_velocity_pattern(vec![1_000_000, 250_000]);
    let cycle_b = RhythmicCycle::new("voice-b", Beat::beats(3));
    let pr = Polyrhythm::new("pair", vec![cycle_a, cycle_b]);
    let mut scheduler = PolyrhythmicScheduler::new(pr);
    scheduler.assign_task("voice-a", "ping");
    scheduler.assign_task("voice-a", "pong");
    let schedule = scheduler.generate_schedule(Beat::beats(4));
    let ids: Vec<&str> = schedule.iter().map(|t| t.id.as_str()).collect();
    // voice-a: beats 0, 2, 4 with ping/pong (tasks 1..6); voice-b: beats 0, 3 (tasks 7, 8)
    assert_eq!(
        ids,
        vec!["ping-1", "pong-2", "task-7", "ping-3", "pong-4", "task-8", "ping-5", "pong-6"]
    );
    assert_eq!(schedule[0].priority, 1_000_000);
    assert_eq!(schedule[2].priority, FULL_LEVEL);
    assert_eq!(schedule[2].cycle_name, "voice-b");
    assert!(schedule.iter().all(|t| !t.completed));
    let at_zero = scheduler.tasks_at(Beat::beats(0), Beat::beats(4));
    let at_zero_ids: Vec<&str> = at_zero.iter().map(|t| t.id.as_str()).collect();
    assert_eq!(at_zero_ids, vec!["ping-1", "pong-2", "task-7"]);
    assert!(scheduler.tasks_at(Beat::beats(1), Beat::beats(4)).is_empty());
}

#[test]
fn counters_run_past_nine() {
    let pr = Polyrhythm::new("one", vec![RhythmicCycle::new("solo", Beat::beats(1))]);
    let scheduler = PolyrhythmicScheduler::new(pr);
    let schedule = scheduler.generate_schedule(Beat::beats(11));
    assert_eq!(schedule.len(), 12);
    assert_eq!(schedule[9].id, "task-10");
    assert_eq!(schedule[11].id, "task-12");
}

#[test]
fn assign_task_keeps_one_entry_per_name() {
    let pr = Polyrhythm::simple("3:2", Beat::beats(3), Beat::beats(2));
    let mut scheduler = PolyrhythmicScheduler::new(pr);
    scheduler.assign_task("voice-a", "one");
    scheduler.assign_task("voice-b", "two");
    scheduler.assign_task("voice-a", "three");
    assert_eq!(scheduler.task_templates.len(), 2);
    assert_eq!(scheduler.task_templates[0].cycle_name, "voice-a");
    assert_eq!(scheduler.task_templates[0].task_names, vec!["one", "three"]);
    assert_eq!(scheduler.task_templates[1].task_names, vec!["two"]);
}

#[test]
fn one_full_cycle_is_schedule_to_groove_point() {
    let pr = Polyrhythm::simple("3:2", Beat::beats(2), Beat::beats(3));
    let scheduler = PolyrhythmicScheduler::new(pr);
    let full = scheduler.schedule_one_full_cycle();
    // voice-a: 0, 2, 4, 6; voice-b: 0, 3, 6
    assert_eq!(full.len(), 7);
    assert_eq!(full.last().unwrap().scheduled_beat, Beat::beats(6));
    let silent = PolyrhythmicScheduler::new(Polyrhythm::new("none", vec![]));
    assert!(silent.schedule_one_full_cycle().is_empty());
}

#[test]
fn syncopation_offsets_and_strength() {
    let detector = SyncopationDetector::new(Beat::beats(1));
    let tenth = TICKS_PER_BEAT / 10;
    let beats = vec![
        Beat::beats(2),
        Beat(TICKS_PER_BEAT / 2),
        Beat(TICKS_PER_BEAT / 4),
        Beat(-TICKS_PER_BEAT / 4),
        Beat(tenth),
        Beat(9 * tenth),
        Beat(-TICKS_PER_BEAT / 2),
    ];
    let events = detector.detect(&beats);
    assert!(events[0].on_grid);
    assert_eq!(events[0].offset_from_grid, Beat(0));
    assert_eq!(events[0].syncopation_strength, 0);
    assert_eq!(events[1].syncopation_strength, FULL_LEVEL);
    assert_eq!(events[1].offset_from_grid, Beat(TICKS_PER_BEAT / 2));
    assert_eq!(events[2].syncopation_strength, 500_000);
    // -0.25 lies a quarter beat before the grid point 0
    assert_eq!(events[3].offset_from_grid, Beat(-TICKS_PER_BEAT / 4));
    assert_eq!(events[3].syncopation_strength, 500_000);
    // 0.1 and 0.9 are both a tenth of a beat from their nearest grid point
    assert_eq!(events[4].offset_from_grid, Beat(tenth));
    assert_eq!(events[5].offset_from_grid, Beat(-tenth));
    assert_eq!(events[4].syncopation_strength, 200_000);
    assert_eq!(events[5].syncopation_strength, 200_000);
    // -0.5 lies halfway between -1 and 0
    assert!(!events[6].on_grid);
    assert_eq!(events[6].syncopation_strength, FULL_LEVEL);
}

#[test]
fn zero_reference_puts_every_beat_off_grid() {
    let detector = SyncopationDetector::new(Beat(0));
    let beats = vec![Beat::beats(0), Beat::beats(1)];
    assert_eq!(detector.syncopation_ratio(&beats), Ratio { numerator: 1, denominator: 1 });
    assert!(detector.is_highly_syncopated(&beats));
}

#[test]
fn syncopation_ratio_lowest_terms() {
    let detector = SyncopationDetector::new(Beat::beats(2));
    let beats = vec![
        Beat::beats(1),
        Beat::beats(2),
        Beat::beats(3),
        Beat::beats(4),
        Beat::beats(5),
        Beat::beats(7),
    ];
    assert_eq!(detector.syncopation_ratio(&beats), Ratio { numerator: 2, denominator: 3 });
    assert!(detector.is_highly_syncopated(&beats));
    assert_eq!(detector.syncopation_ratio(&[]), Ratio { numerator: 0, denominator: 1 });
    assert!(!detector.is_highly_syncopated(&[]));
}


#[test]
fn subtracting_undoes_adding() {
    let a = Beat(7 * TICKS_PER_BEAT + 3);
    let b = Beat(-2 * TICKS_PER_BEAT);
    assert_eq!((a + b) - b, a);
}

#[test]
fn tasks_at_is_the_schedule_on_that_beat() {
    let pr = Polyrhythm::simple("3:2", Beat::beats(2), Beat::beats(3));
    let mut scheduler = PolyrhythmicScheduler::new(pr);
    scheduler.assign_task("voice-b", "sweep");
    scheduler.assign_task("voice-b", "flush");
    let schedule = scheduler.generate_schedule(Beat::beats(12));
    for beat in [0, 3, 6, 7, 12] {
        let expected: Vec<String> = schedule
            .iter()
            .filter(|t| t.scheduled_beat == Beat::beats(beat))
            .map(|t| t.id.clone())
            .collect();
        let found: Vec<String> = scheduler
            .tasks_at(Beat::beats(beat), Beat::beats(12))
            .iter()
            .map(|t| t.id.clone())
            .collect();
        assert_eq!(found, expected);
    }
}

#[test]
fn velocity_repeats_one_period_later() {
    let cycle = RhythmicCycle::new("accent", Beat::beats(4))
        .with_phase(Beat::beats(1))
        .with_velocity_pattern(vec![1_000_000, 500_000, 750_000, 500_000]);
    for b in 1..9 {
        assert_eq!(cycle.velocity_at(Beat::beats(b)), cycle.velocity_at(Beat::beats(b + 4)));
    }
}

#[test]
fn all_triggers_length_is_sum_of_counts() {
    let pr = Polyrhythm::new(
        "three",
        vec![
            RhythmicCycle::new("a", Beat::beats(2)),
            RhythmicCycle::new("b", Beat::beats(3)).with_phase(Beat::beats(-2)),
            RhythmicCycle::new("c", Beat::beats(5)),
        ],
    );
    let total: usize = pr.cycles.iter().map(|c| c.count_triggers(Beat::beats(10))).sum();
    assert_eq!(pr.all_triggers(Beat::beats(10)).len(), total);
}

#[test]
fn schedule_length_and_full_cycle_agree() {
    let pr = Polyrhythm::simple("3:2", Beat::beats(2), Beat::beats(3));
    let mut scheduler = PolyrhythmicScheduler::new(pr);
    scheduler.assign_task("voice-a", "x");
    scheduler.assign_task("voice-a", "y");
    let up_to_groove = scheduler.generate_schedule(Beat::beats(6));
    // voice-a: 4 triggers x 2 names; voice-b: 3 triggers x 1 default task
    assert_eq!(up_to_groove.len(), 4 * 2 + 3);
    let full = scheduler.schedule_one_full_cycle();
    let ids_a: Vec<&str> = up_to_groove.iter().map(|t| t.id.as_str()).collect();
    let ids_b: Vec<&str> = full.iter().map(|t| t.id.as_str()).collect();
    assert_eq!(ids_a, ids_b);
}

#[test]
fn ratio_and_alignments_ignore_order() {
    let detector = SyncopationDetector::new(Beat::beats(1));
    let beats = vec![Beat::beats(0), Beat(TICKS_PER_BEAT / 3), Beat::beats(2)];
    let mut reversed = beats.clone();
    reversed.reverse();
    assert_eq!(detector.syncopation_ratio(&beats), detector.syncopation_ratio(&reversed));
    let cycles = vec![
        RhythmicCycle::new("a", Beat::beats(2)),
        RhythmicCycle::new("b", Beat::beats(3)),
        RhythmicCycle::new("c", Beat::beats(4)),
    ];
    let reordered = vec![cycles[2].clone(), cycles[0].clone(), cycles[1].clone()];
    assert_eq!(
        find_alignments(&cycles, Beat::beats(24)),
        find_alignments(&reordered, Beat::beats(24))
    );
}

#[test]
fn groove_point_zero_only_without_whole_periods() {
    let short = vec![RhythmicCycle::new("s", Beat(TICKS_PER_BEAT / 2 - 1))];
    assert_eq!(groove_point(&short), Beat(0));
    let half = vec![RhythmicCycle::new("h", Beat(TICKS_PER_BEAT / 2))];
    assert_eq!(groove_point(&half), Beat::beats(1));
}

#[test]
fn schedule_numbers_each_task_once_from_one() {
    let pr = Polyrhythm::simple("3:2", Beat::beats(3), Beat::beats(2));
    let mut scheduler = PolyrhythmicScheduler::new(pr);
    scheduler.assign_task("voice-a", "alpha");
    scheduler.assign_task("voice-a", "beta");
    let schedule = scheduler.generate_schedule(Beat::beats(12));
    let mut numbers: Vec<usize> = schedule
        .iter()
        .map(|t| t.id.rsplit('-').next().unwrap().parse().unwrap())
        .collect();
    numbers.sort();
    let expected: Vec<usize> = (1..=schedule.len()).collect();
    assert_eq!(numbers, expected);
}

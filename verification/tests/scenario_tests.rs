use agent_polyrhythm::{
    detect_alignments, find_alignments, groove_point, Beat, Polyrhythm, PolyrhythmicScheduler,
    Ratio, RhythmicCycle, ScheduledTask, SyncopationDetector, TICKS_PER_BEAT,
};

fn half() -> i64 {
    TICKS_PER_BEAT / 2
}

#[test]
fn test_beat_arithmetic() {
    let a = Beat::beats(3);
    let b = Beat::beats(2);
    assert_eq!(a + b, Beat::beats(5));
    assert_eq!(a - b, Beat::beats(1));
}

#[test]
fn test_rhythmic_cycle_creation() {
    let cycle = RhythmicCycle::new("pulse", Beat::beats(4));
    assert_eq!(cycle.period, Beat::beats(4));
    assert_eq!(cycle.phase, Beat::beats(0));
}

#[test]
fn test_rhythmic_cycle_triggers() {
    let cycle = RhythmicCycle::new("pulse", Beat::beats(3));
    assert!(cycle.triggers_at(Beat::beats(0)));
    assert!(cycle.triggers_at(Beat::beats(3)));
    assert!(cycle.triggers_at(Beat::beats(6)));
    assert!(!cycle.triggers_at(Beat::beats(1)));
    assert!(!cycle.triggers_at(Beat(2 * TICKS_PER_BEAT + half())));
}

#[test]
fn test_rhythmic_cycle_with_phase() {
    let cycle = RhythmicCycle::new("offset", Beat::beats(2)).with_phase(Beat::beats(1));
    assert!(!cycle.triggers_at(Beat::beats(0)));
    assert!(cycle.triggers_at(Beat::beats(1)));
    assert!(cycle.triggers_at(Beat::beats(3)));
}

#[test]
fn test_rhythmic_cycle_next_trigger() {
    let cycle = RhythmicCycle::new("pulse", Beat::beats(4));
    let next = cycle.next_trigger_after(Beat::beats(1));
    assert_eq!(next, Beat::beats(4));
    let next2 = cycle.next_trigger_after(Beat::beats(4));
    assert_eq!(next2, Beat::beats(8));
}

#[test]
fn test_rhythmic_cycle_triggers_up_to() {
    let cycle = RhythmicCycle::new("pulse", Beat::beats(2));
    let triggers = cycle.triggers_up_to(Beat::beats(8));
    assert_eq!(triggers.len(), 5); // 0, 2, 4, 6, 8
}

#[test]
fn test_rhythmic_cycle_count() {
    let cycle = RhythmicCycle::new("pulse", Beat::beats(3));
    assert_eq!(cycle.count_triggers(Beat::beats(12)), 5); // 0, 3, 6, 9, 12
}

#[test]
fn test_velocity_pattern() {
    let cycle = RhythmicCycle::new("accent", Beat::beats(4))
        .with_velocity_pattern(vec![1_000_000, 500_000, 750_000, 500_000]);
    assert_eq!(cycle.velocity_at(Beat::beats(0)), 1_000_000);
    assert_eq!(cycle.velocity_at(Beat::beats(1)), 500_000);
}

#[test]
fn test_polyrhythm_simple() {
    let pr = Polyrhythm::simple("3:2", Beat::beats(2), Beat::beats(3));
    assert_eq!(pr.voice_count(), 2);
    let period = pr.full_cycle_period();
    assert_eq!(period, Beat::beats(6)); // LCM(2,3) = 6
}

#[test]
fn test_polyrhythm_triggers() {
    let pr = Polyrhythm::simple("3:2", Beat::beats(2), Beat::beats(3));
    let triggers = pr.all_triggers(Beat::beats(6));
    assert!(triggers.len() >= 6); // 0,2,4,6 from cycle A + 0,3,6 from cycle B
}

#[test]
fn test_polyrhythm_full_cycle_4_3() {
    let pr = Polyrhythm::simple("4:3", Beat::beats(3), Beat::beats(4));
    assert_eq!(pr.full_cycle_period(), Beat::beats(12)); // LCM(3,4) = 12
}

#[test]
fn test_groove_point() {
    let cycles = vec![
        RhythmicCycle::new("a", Beat::beats(3)),
        RhythmicCycle::new("b", Beat::beats(4)),
    ];
    let gp = groove_point(&cycles);
    assert_eq!(gp, Beat::beats(12)); // LCM(3,4) = 12
}

#[test]
fn test_groove_point_three_way() {
    let cycles = vec![
        RhythmicCycle::new("a", Beat::beats(2)),
        RhythmicCycle::new("b", Beat::beats(3)),
        RhythmicCycle::new("c", Beat::beats(5)),
    ];
    let gp = groove_point(&cycles);
    assert_eq!(gp, Beat::beats(30)); // LCM(2,3,5) = 30
}

#[test]
fn test_find_alignments() {
    let cycles = vec![
        RhythmicCycle::new("a", Beat::beats(2)),
        RhythmicCycle::new("b", Beat::beats(3)),
    ];
    let alignments = find_alignments(&cycles, Beat::beats(12));
    assert!(alignments.contains(&Beat::beats(0)));
    assert!(alignments.contains(&Beat::beats(6)));
    assert!(alignments.contains(&Beat::beats(12)));
    assert!(!alignments.contains(&Beat::beats(2)));
}

#[test]
fn test_detect_alignments_detailed() {
    let cycles = vec![
        RhythmicCycle::new("a", Beat::beats(2)),
        RhythmicCycle::new("b", Beat::beats(3)),
    ];
    let alignments = detect_alignments(&cycles, Beat::beats(12));
    let six = alignments.iter().find(|a| a.beat == Beat::beats(6)).unwrap();
    assert!(six.is_full_sync);
    assert_eq!(six.aligned_cycles.len(), 2);
}

#[test]
fn test_scheduler_basic() {
    let pr = Polyrhythm::simple("3:2", Beat::beats(3), Beat::beats(4));
    let mut scheduler = PolyrhythmicScheduler::new(pr);
    scheduler.assign_task("voice-a", "check-health");
    scheduler.assign_task("voice-b", "process-queue");
    let schedule = scheduler.generate_schedule(Beat::beats(12));
    assert!(!schedule.is_empty());
    // Should be sorted by beat
    for i in 1..schedule.len() {
        assert!(schedule[i].scheduled_beat.0 >= schedule[i - 1].scheduled_beat.0);
    }
}

#[test]
fn test_scheduler_one_full_cycle() {
    let pr = Polyrhythm::simple("3:2", Beat::beats(3), Beat::beats(4));
    let scheduler = PolyrhythmicScheduler::new(pr);
    let schedule = scheduler.schedule_one_full_cycle();
    assert!(!schedule.is_empty());
}

#[test]
fn test_syncopation_detector_on_grid() {
    let detector = SyncopationDetector::new(Beat::beats(1));
    let beats = vec![Beat::beats(0), Beat::beats(1), Beat::beats(2), Beat::beats(3)];
    let events = detector.detect(&beats);
    assert!(events.iter().all(|e| e.on_grid));
    assert_eq!(detector.syncopation_ratio(&beats), Ratio { numerator: 0, denominator: 1 });
}

#[test]
fn test_syncopation_detector_off_grid() {
    let detector = SyncopationDetector::new(Beat::beats(1));
    let beats = vec![
        Beat(half()),
        Beat(TICKS_PER_BEAT + half()),
        Beat(2 * TICKS_PER_BEAT + half()),
    ];
    let events = detector.detect(&beats);
    assert!(events.iter().all(|e| !e.on_grid));
    assert_eq!(detector.syncopation_ratio(&beats), Ratio { numerator: 1, denominator: 1 });
}

#[test]
fn test_syncopation_mixed() {
    let detector = SyncopationDetector::new(Beat::beats(1));
    let beats = vec![
        Beat::beats(0),
        Beat(half()),
        Beat::beats(1),
        Beat(TICKS_PER_BEAT + half()),
    ];
    let ratio = detector.syncopation_ratio(&beats);
    assert_eq!(ratio, Ratio { numerator: 1, denominator: 2 });
    assert!(!detector.is_highly_syncopated(&beats));
}

#[test]
fn test_syncopation_highly() {
    let detector = SyncopationDetector::new(Beat::beats(4));
    let beats = vec![Beat::beats(1), Beat::beats(3), Beat::beats(5), Beat::beats(7)];
    // All off-grid relative to period 4
    assert!(detector.is_highly_syncopated(&beats));
}

#[test]
fn test_scheduled_task_creation() {
    let task = ScheduledTask::new("t1", "voice-a", Beat::beats(3)).with_priority(800_000);
    assert_eq!(task.id, "t1");
    assert_eq!(task.priority, 800_000);
    assert!(!task.completed);
}

#[test]
fn test_polyrhythm_three_voices() {
    let pr = Polyrhythm::new(
        "complex",
        vec![
            RhythmicCycle::new("a", Beat::beats(2)),
            RhythmicCycle::new("b", Beat::beats(3)),
            RhythmicCycle::new("c", Beat::beats(5)),
        ],
    );
    assert_eq!(pr.voice_count(), 3);
    assert_eq!(pr.full_cycle_period(), Beat::beats(30));
}

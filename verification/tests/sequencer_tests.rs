use sequencer::clock::ManualClock;
use sequencer::sequencer::Sequencer;
use sequencer::types::{u2, u4, u7, Controller, Event, Note, Param};

fn fresh() -> Sequencer<ManualClock> {
    Sequencer::new()
}

fn track(i: u8) -> u2 {
    u2::try_from(i).unwrap()
}

fn step(i: u8) -> u4 {
    u4::try_from(i).unwrap()
}

fn value(i: u8) -> u7 {
    u7::try_from(i).unwrap()
}

fn note(pitch: u8, velocity: u8, duration: u8) -> Note {
    Note { pitch: value(pitch), velocity: value(velocity), duration: u4::try_from(duration).unwrap() }
}

#[test]
fn set_tempo() {
    let mut sequencer = fresh();
    sequencer.with_tempo(60);
    let sequencer = sequencer.build();
    // 60 bpm at four steps per beat is one step every 250 ms.
    assert_eq!(sequencer.get_period(), 250_000);
}

#[test]
fn idle_state() {
    let sequencer = fresh();
    let (current, total) = sequencer.get_steps();
    assert_eq!(current.get(), 0);
    assert_eq!(total, 0);
    assert_eq!(sequencer.is_running(), false);
}

#[test]
fn start_pause_idempotent() {
    let mut sequencer = fresh();
    let first = sequencer.start();
    assert!(first.is_some());
    assert_eq!(sequencer.is_running(), true);
    let second = sequencer.start();
    assert!(second.is_none());
    assert_eq!(sequencer.is_running(), true);
    assert_eq!(sequencer.get_steps().1, 1);
    sequencer.pause();
    sequencer.pause();
    assert_eq!(sequencer.is_running(), false);
    assert_eq!(sequencer.get_steps().1, 1);
}

#[test]
fn immediate_note_off() {
    let mut sequencer = fresh();
    sequencer.add_note(track(0), step(0), note(1, 1, 0));
    let (fired_step, events) = sequencer.start().unwrap();
    assert_eq!(fired_step, 0);
    // A duration of zero yields the note-on immediately followed by its
    // note-off within the same batch.
    assert_eq!(
        events,
        vec![
            Event::NoteOn { channel: u4::try_from(0).unwrap(), pitch: value(1), velocity: value(1) },
            Event::NoteOff { channel: u4::try_from(0).unwrap(), pitch: value(1) },
        ]
    );
}

#[test]
fn step_mapping() {
    let mut sequencer = fresh();
    let (first, _) = sequencer.start().unwrap();
    assert_eq!(first, 0);
    // Tick t reports step (t - 1) % 16.
    for t in 2..=40usize {
        let (stp, _) = sequencer.tick();
        assert_eq!(stp, (t - 1) % 16);
        let (current, total) = sequencer.get_steps();
        assert_eq!(current.get() as usize, (t - 1) % 16);
        assert_eq!(total, t);
    }
}

#[test]
fn count_steps() {
    let count: usize = 20;
    let mut sequencer = fresh();
    sequencer.with_tempo(150);
    let mut fired: usize = 1;
    sequencer.start().unwrap();
    while fired < count {
        sequencer.tick();
        fired += 1;
    }
    sequencer.pause();
    // After 20 step events the engine sits on step (20 - 1) % 16 = 3.
    let (current, total) = sequencer.get_steps();
    assert_eq!(current.get(), 3);
    assert_eq!(total, count);
}

#[test]
fn add_notes() {
    let mut sequencer = fresh();
    for tr in 0..4u8 {
        for st in 0..16u8 {
            // Pitch value = track + step.
            sequencer.add_note(track(tr), step(st), Note::from_pitch(value(tr + st)));
        }
    }
    let mut note_ons: usize = 0;
    let (stp, events) = sequencer.start().unwrap();
    let mut batches = vec![(stp, events)];
    for _ in 1..16 {
        let (stp, events) = sequencer.tick();
        batches.push((stp, events));
    }
    sequencer.pause();
    for (stp, events) in batches {
        for event in events {
            if let Event::NoteOn { channel, pitch, velocity } = event {
                assert_eq!(channel.get() as usize + stp, pitch.get() as usize);
                assert_eq!(velocity.get(), 0);
                note_ons += 1;
            }
        }
    }
    assert_eq!(note_ons, 4 * 16);
}

#[test]
fn remove_notes() {
    let mut sequencer = fresh();
    let mut i: u8 = 0;
    for tr in 0..4u8 {
        for st in 0..16u8 {
            sequencer.add_note(track(tr), step(st), Note::from_pitch(value(i)));
            i += 1;
        }
    }
    i = 0;
    for tr in 0..4u8 {
        for st in 0..16u8 {
            sequencer.delete_note(track(tr), step(st), Note::from_pitch(value(i)));
            i += 1;
        }
    }
    let (_, events) = sequencer.start().unwrap();
    assert!(events.is_empty());
    for _ in 1..16 {
        let (_, events) = sequencer.tick();
        assert!(events.is_empty());
    }
    sequencer.pause();
}

#[test]
fn note_offs() {
    let mut sequencer = fresh();
    for tr in 0..4u8 {
        for st in 0..16u8 {
            // Pitch value = current step, duration = current step.
            sequencer.add_note(
                track(tr),
                step(st),
                Note { pitch: value(st), velocity: value(0), duration: u4::try_from(st).unwrap() },
            );
        }
    }
    let mut offs: usize = 0;
    let (stp, events) = sequencer.start().unwrap();
    let mut batches = vec![(stp, events)];
    for _ in 1..32 {
        let (stp, events) = sequencer.tick();
        batches.push((stp, events));
    }
    sequencer.pause();
    for (stp, events) in batches {
        for event in events {
            if let Event::NoteOff { channel: _, pitch } = event {
                let pitch = pitch.get() as i32;
                let duration = (stp as i32 - pitch).rem_euclid(16);
                assert_eq!(duration, pitch);
                offs += 1;
            }
        }
    }
    // Two full cycles fire 3 * TRACKS * STEPS / 2 note-offs.
    assert_eq!(offs, 3 * 4 * 16 / 2);
}

#[test]
fn pending_off_at_target_step() {
    let mut sequencer = fresh();
    // A note at step 2 with duration 3 must release at step (2 + 3) % 16 = 5,
    // never earlier and never at step 2 itself.
    sequencer.add_note(track(0), step(2), note(9, 5, 3));
    let (_, events) = sequencer.start().unwrap();
    assert!(events.is_empty());
    for t in 2..=16usize {
        let (stp, events) = sequencer.tick();
        assert_eq!(stp, t - 1);
        let offs: Vec<&Event> = events
            .iter()
            .filter(|e| matches!(e, Event::NoteOff { .. }))
            .collect();
        if stp == 5 {
            assert_eq!(
                offs,
                vec![&Event::NoteOff { channel: u4::try_from(0).unwrap(), pitch: value(9) }]
            );
        } else {
            assert!(offs.is_empty());
        }
    }
}

#[test]
fn overwrite_same_pitch() {
    let mut sequencer = fresh();
    // Two notes of the same pitch at the same cell: the second overwrites.
    sequencer.add_note(track(1), step(0), note(30, 10, 0));
    sequencer.add_note(track(1), step(0), note(30, 99, 0));
    let (_, events) = sequencer.start().unwrap();
    let ons: Vec<&Event> = events
        .iter()
        .filter(|e| matches!(e, Event::NoteOn { .. }))
        .collect();
    assert_eq!(
        ons,
        vec![&Event::NoteOn {
            channel: u4::try_from(1).unwrap(),
            pitch: value(30),
            velocity: value(99),
        }]
    );
}

#[test]
fn delete_removes_only_matching_pitch() {
    let mut sequencer = fresh();
    sequencer.add_note(track(0), step(0), note(10, 1, 0));
    sequencer.add_note(track(0), step(0), note(11, 2, 0));
    sequencer.delete_note(track(0), step(0), Note::from_pitch(value(10)));
    let (_, events) = sequencer.start().unwrap();
    assert_eq!(
        events,
        vec![
            Event::NoteOn { channel: u4::try_from(0).unwrap(), pitch: value(11), velocity: value(2) },
            Event::NoteOff { channel: u4::try_from(0).unwrap(), pitch: value(11) },
        ]
    );
}

#[test]
fn add_params() {
    let controllers = [
        Controller::Modulation,
        Controller::Breath,
        Controller::Volume,
        Controller::Pan,
    ];
    let mut sequencer = fresh();
    for tr in 0..4u8 {
        for st in 0..16u8 {
            for controller in &controllers {
                sequencer.set_param(
                    track(tr),
                    step(st),
                    Param { controller: *controller, value: value(tr + st) },
                );
            }
        }
    }
    let mut changes: usize = 0;
    let (stp, events) = sequencer.start().unwrap();
    let mut batches = vec![(stp, events)];
    for _ in 1..16 {
        let (stp, events) = sequencer.tick();
        batches.push((stp, events));
    }
    sequencer.pause();
    for (stp, events) in batches {
        let mut bitfield: u8 = 0;
        for event in events {
            if let Event::ControllerChange { channel, controller, value } = event {
                assert_eq!(channel.get() as usize + stp, value.get() as usize);
                changes += 1;
                match controller.get() {
                    1 => bitfield |= 0x1,
                    2 => bitfield |= 0x2,
                    7 => bitfield |= 0x4,
                    10 => bitfield |= 0x8,
                    _ => panic!("invalid controller number"),
                }
            }
        }
        assert_eq!(bitfield, 0xF);
    }
    assert_eq!(changes, 4 * 16 * controllers.len());
}

#[test]
fn remove_params() {
    let controllers = [
        Controller::Modulation,
        Controller::Breath,
        Controller::Volume,
        Controller::Pan,
    ];
    let mut sequencer = fresh();
    for tr in 0..4u8 {
        for st in 0..16u8 {
            for controller in &controllers {
                sequencer.set_param(track(tr), step(st), Param::from_controller(*controller));
            }
        }
    }
    for tr in 0..4u8 {
        for st in 0..16u8 {
            for controller in &controllers {
                sequencer.clear_param(track(tr), step(st), Param::from_controller(*controller));
            }
        }
    }
    let (_, events) = sequencer.start().unwrap();
    assert!(events.is_empty());
    for _ in 1..16 {
        let (_, events) = sequencer.tick();
        assert!(events.is_empty());
    }
    sequencer.pause();
}

#[test]
fn batch_order() {
    let mut sequencer = fresh();
    // Params and notes on two tracks at step 0: the batch must hold every
    // controller change of a track before that track's note-ons, with the
    // tracks in ascending channel order.
    for tr in 0..2u8 {
        sequencer.set_param(track(tr), step(0), Param { controller: Controller::Volume, value: value(64) });
        sequencer.add_note(track(tr), step(0), note(40 + tr, 7, 4));
    }
    let (_, events) = sequencer.start().unwrap();
    assert_eq!(
        events,
        vec![
            Event::ControllerChange {
                channel: u4::try_from(0).unwrap(),
                controller: value(7),
                value: value(64),
            },
            Event::NoteOn { channel: u4::try_from(0).unwrap(), pitch: value(40), velocity: value(7) },
            Event::ControllerChange {
                channel: u4::try_from(1).unwrap(),
                controller: value(7),
                value: value(64),
            },
            Event::NoteOn { channel: u4::try_from(1).unwrap(), pitch: value(41), velocity: value(7) },
        ]
    );
}

#[test]
fn pause_start() {
    let mut sequencer = fresh();
    sequencer.start().unwrap();
    sequencer.tick();
    sequencer.pause();
    let last_step = sequencer.get_steps().0;
    assert_eq!(last_step.get(), 1);
    // A restart continues the step numbering seamlessly.
    let (stp, _) = sequencer.start().unwrap();
    assert_eq!(stp, last_step.get() as usize + 1);
    sequencer.pause();
}

#[test]
fn skipped_tick_preserves_grid() {
    let mut sequencer = fresh();
    // The note at step 0 sustains one step: its note-off is pending at step 1.
    sequencer.add_note(track(0), step(0), note(5, 0, 1));
    let (_, events) = sequencer.start().unwrap();
    assert_eq!(events.len(), 1);
    // Contention: the engine cannot reach the grid for step 1. The step
    // advances with no events, and the pending note-off stays queued.
    let stp = sequencer.tick_skipped();
    assert_eq!(stp, 1);
    sequencer.delete_note(track(0), step(0), Note::from_pitch(value(5)));
    for _ in 0..15 {
        sequencer.tick();
    }
    // One full cycle later, step 1 fires the preserved note-off.
    let (stp, events) = sequencer.tick();
    assert_eq!(stp, 1);
    assert_eq!(
        events,
        vec![Event::NoteOff { channel: u4::try_from(0).unwrap(), pitch: value(5) }]
    );
}

#[test]
fn while_running() {
    let mut sequencer = fresh();
    sequencer.start().unwrap();
    // Mutation between ticks: each note lands on the next step to fire and
    // is observed on that very tick.
    for i in 0..127u8 {
        let next = ((sequencer.get_steps().0.get() + 1) % 16) as u8;
        sequencer.add_note(
            track(0),
            step(next),
            Note { pitch: value(next), velocity: value(i), duration: u4::try_from(0).unwrap() },
        );
        let (stp, events) = sequencer.tick();
        assert_eq!(stp, next as usize);
        let mut seen = false;
        for event in events {
            if let Event::NoteOn { channel: _, pitch, velocity } = event {
                assert_eq!(pitch.get() as usize, stp);
                assert_eq!(velocity.get(), i);
                seen = true;
            }
        }
        assert!(seen);
    }
    sequencer.pause();
}

#[test]
fn end_to_end_tempo() {
    let mut sequencer = fresh();
    // 60 bpm gives 60 / (60 * 4) = 0.25 s per step.
    sequencer.with_tempo(60);
    assert_eq!(sequencer.get_period(), 250_000);
    let (first, _) = sequencer.start().unwrap();
    let mut steps = vec![first];
    for _ in 0..3 {
        let (stp, _) = sequencer.tick();
        steps.push(stp);
    }
    sequencer.pause();
    // Four periods minus half a period of elapsed time fire exactly four
    // ticks, reported as steps 0, 1, 2, 3.
    assert_eq!(sequencer.get_steps().1, 4);
    assert_eq!(steps, vec![0, 1, 2, 3]);
}

#[test]
fn voice_updates_on_param() {
    let mut sequencer = fresh();
    sequencer.set_param(
        track(2),
        step(0),
        Param { controller: Controller::Pan, value: value(33) },
    );
    let (_, events) = sequencer.start().unwrap();
    assert_eq!(
        events,
        vec![Event::ControllerChange {
            channel: u4::try_from(2).unwrap(),
            controller: value(10),
            value: value(33),
        }]
    );
}

use hexencer::demo_sequencer::{DemoSequencer, DemoStep, STEPS_PER_BAR};

#[test]
fn demo_plays_its_melody_backwards_once() {
    let mut s = DemoSequencer::new(120);
    assert!(!s.playing);
    assert_eq!(s.tick_length_ms(), 500);
    let mut notes = Vec::new();
    let mut ticks = Vec::new();
    loop {
        let step = s.step();
        ticks.push(s.current_tick);
        if let Some(n) = step.note {
            notes.push(n);
        }
        if !step.go_on {
            break;
        }
    }
    assert_eq!(notes, vec![67, 67, 66, 66, 69, 69]);
    assert_eq!(ticks, vec![1, 2, 3, 0, 1, 2]);
    assert!(s.sequence.is_empty());
    assert_eq!(s.step(), DemoStep { note: None, go_on: false });
}

#[test]
fn demo_step_counts_bars_of_four() {
    assert_eq!(STEPS_PER_BAR, 4);
    let mut s = DemoSequencer::new(60);
    assert_eq!(s.tick_length_ms(), 1000);
    s.current_tick = 3;
    s.step();
    assert_eq!(s.current_tick, 0);
    s.current_tick = 7;
    s.step();
    assert_eq!(s.current_tick, 8);
}

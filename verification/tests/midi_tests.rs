use hexencer::common::{ALL_NOTE_ON_MSG, NOTE_OFF_MSG, NOTE_ON_MSG};
use hexencer::event::{Event, EventId, EventType};
use hexencer::instrument::Instrument;
use hexencer::midi_engine::{output_for_port, OutputSlot};
use hexencer::midi_event::{MidiEvent, MidiRequest};
use hexencer::midi_message::MidiMessage;
use hexencer::note::Note;
use hexencer::trig::Trig;

#[test]
fn messages_encode_to_three_bytes() {
    let on = MidiMessage::NoteOn { key: 60, velocity: 100 };
    assert_eq!(on.to_midi(0), [0x90, 60, 100]);
    assert_eq!(on.to_midi(3), [0x93, 60, 100]);
    let off = MidiMessage::NoteOff { key: 61, velocity: 0 };
    assert_eq!(off.to_midi(15), [0x8F, 61, 0]);
    assert_eq!(MidiMessage::AllNoteOff.to_midi(9), [0xB0, 123, 0]);
    assert_eq!((NOTE_ON_MSG, NOTE_OFF_MSG, ALL_NOTE_ON_MSG), (0x90, 0x80, 0xB0));
}

#[test]
fn message_keys_and_text() {
    assert_eq!(MidiMessage::NoteOn { key: 60, velocity: 1 }.get_key(), 60);
    assert_eq!(MidiMessage::NoteOff { key: 61, velocity: 1 }.get_key(), 61);
    assert_eq!(MidiMessage::AllNoteOff.get_key(), 0);
    assert_eq!(
        MidiMessage::NoteOn { key: 60, velocity: 100 }.to_string(),
        "[note_on]key:60, velocity:100"
    );
    assert_eq!(
        MidiMessage::NoteOff { key: 7, velocity: 0 }.to_string(),
        "[note_off]key:7, velocity:0"
    );
    assert_eq!(MidiMessage::AllNoteOff.to_string(), "[global_note_off]");
    assert_eq!(MidiMessage::default(), MidiMessage::NoteOn { key: 66, velocity: 64 });
}

#[test]
fn event_types_wrap_messages() {
    let m = MidiMessage::NoteOn { key: 50, velocity: 64 };
    let e = EventType::new(m);
    assert_eq!(e, EventType::Midi(m));
    assert_eq!(e.get_message(), m);
    assert_eq!(e.to_string(), "[note_on]key:50, velocity:64");
    let ev = Event::new(EventId::default(), e, true);
    assert_eq!(ev.get_key(), 50);
    assert!(ev.active);
    assert_eq!(EventId::default().to_string(), "00000000-0000-0000-0000-000000000000");
}

#[test]
fn requests_carry_message_and_port() {
    let m = MidiMessage::NoteOff { key: 3, velocity: 4 };
    let r = MidiRequest::new(m, 1);
    assert_eq!(*r.get_message(), m);
    assert_eq!(r.get_port(), 1);
}

#[test]
fn ports_map_to_output_connections() {
    assert_eq!(output_for_port(0), Some(OutputSlot::First));
    assert_eq!(output_for_port(1), Some(OutputSlot::Second));
    assert_eq!(output_for_port(2), None);
    assert_eq!(output_for_port(255), None);
}

#[test]
fn instruments_and_triggers() {
    let i = Instrument::new("synth", 2, 5);
    assert_eq!(i.to_string(), "name:synth, port:2");
    assert_eq!(i.channel, 5);
    let d = Instrument::default();
    assert_eq!((d.name.as_str(), d.port, d.channel), ("", 0, 0));

    let t = Trig::new(i.clone(), 10, true);
    assert_eq!(t.duration, 480);
    assert!(t.on);
    assert_eq!(t.get_note_index(), 48);
    assert_eq!(t.get_note_on(), MidiEvent::NoteOn(Note { index: 48, velocity: 96 }));
    assert_eq!(t.get_note_off(), MidiEvent::NoteOff(Note { index: 48, velocity: 96 }));
    assert_eq!(t.to_string(), "note:key: 48, velocity: 96, instrument:name:synth, port:2");
    assert_eq!(Note::default().to_string(), "key: 48, velocity: 96");
}

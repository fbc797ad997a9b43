use piano::{Command, NoteMode, NoteState, WavesControl};

#[test]
fn hit_maps_semitones_to_voices() {
    let mut c = WavesControl::new(100);
    c.hit(0);
    assert_eq!(c.ss[0], NoteState::Attack(c.adsr.attack_dur));
    c.hit(12);
    assert_eq!(c.ss[17], NoteState::Attack(c.adsr.attack_dur));
    c.hit(24);
    assert_eq!(c.ss[49], NoteState::Attack(c.adsr.attack_dur));
    let sounding = c.ss.iter().filter(|s| **s != NoteState::Silent).count();
    assert_eq!(sounding, 3);
}

#[test]
fn hit_out_of_range_is_ignored() {
    let mut c = WavesControl::new(10);
    c.hit(60);
    c.hit(1000);
    c.hit(usize::MAX);
    assert!(c.ss.iter().all(|s| *s == NoteState::Silent));
}

#[test]
fn hit_leaves_sounding_phases() {
    let mut c = WavesControl::new(4);
    c.ss[0] = NoteState::Decay(1000);
    c.hit(0);
    assert_eq!(c.ss[0], NoteState::Decay(1000));
    c.ss[0] = NoteState::Sustain(1000);
    c.hit(0);
    assert_eq!(c.ss[0], NoteState::Sustain(1000));
    c.ss[0] = NoteState::Attack(1000);
    c.hit(0);
    assert_eq!(c.ss[0], NoteState::Attack(1000));
}

#[test]
fn retrigger_keeps_amplitude() {
    let mut c = WavesControl::new(4);
    for t in [150000, 120000, 75000, 30000, 1, 0, -100] {
        c.ss[0] = NoteState::Release(t);
        let before = c.ss[0].peek(&c.adsr);
        c.hit(0);
        assert!(matches!(c.ss[0], NoteState::Attack(_)));
        assert_eq!(c.ss[0].peek(&c.adsr), before);
    }
}

#[test]
fn retrigger_resume_time() {
    let mut c = WavesControl::new(4);
    c.ss[0] = NoteState::Release(75000);
    c.hit(0);
    // amplitude 9831 of 26214 leaves 200 ms * (1 - 9831 / 26214) of the attack
    assert_eq!(c.ss[0], NoteState::Attack(124994));
    assert_eq!(c.ss[0].peek(&c.adsr), 9831);
}

#[test]
fn max_note_of_table() {
    assert_eq!(WavesControl::new(1022).max_note(), 71);
    assert_eq!(WavesControl::new(16).max_note(), 11);
    assert_eq!(WavesControl::new(17).max_note(), 11);
    assert_eq!(WavesControl::new(18).max_note(), 12);
    assert_eq!(WavesControl::new(2).max_note(), 1);
    assert_eq!(WavesControl::new(1).max_note(), 0);
    assert_eq!(WavesControl::new(0).max_note(), 0);
    // the highest note reaches the last voices, the next one does not
    let mut c = WavesControl::new(18);
    c.hit(12);
    assert_eq!(c.ss[17], NoteState::Attack(c.adsr.attack_dur));
    c.hit(13);
    assert_eq!(c.ss.iter().filter(|s| **s != NoteState::Silent).count(), 1);
}

#[test]
fn get_state_reads_levels() {
    let mut c = WavesControl::new(3);
    c.ss[1] = NoteState::Sustain(5);
    c.ss[2] = NoteState::Attack(0);
    let mut out = vec![-1; 5];
    c.get_state(&mut out);
    assert_eq!(out, vec![0, 19661, 26214, -1, -1]);
    let mut short = vec![-1; 2];
    c.get_state(&mut short);
    assert_eq!(short, vec![0, 19661]);
    assert_eq!(c.snapshot(), vec![0, 19661, 26214]);
}

#[test]
fn commands_edit_the_surface() {
    let mut c = WavesControl::new(4);
    c.apply(Command::SetSustain(true));
    assert!(c.sustain);
    c.apply(Command::SetMode(NoteMode::Square));
    assert_eq!(c.mode, NoteMode::Square);
    c.apply(Command::Hit(0));
    assert_eq!(c.ss[0], NoteState::Attack(c.adsr.attack_dur));
    c.set_sustain(false);
    assert!(!c.sustain);
    c.set_mode(NoteMode::Triangle);
    assert_eq!(c.mode, NoteMode::Triangle);
}

#[test]
fn advance_all_steps_every_voice() {
    let mut c = WavesControl::new(3);
    c.ss[0] = NoteState::Attack(0);
    c.ss[1] = NoteState::Sustain(10);
    let amps = c.advance_all(62500);
    assert_eq!(amps, vec![26214, 19661, 0]);
    // time overrun in the tick carries into the next phase
    assert_eq!(c.ss[0], NoteState::Sustain(40000 - 62500 + 50000));
    assert_eq!(c.ss[1], NoteState::Release(150000 + 10 - 62500));
    assert_eq!(c.ss[2], NoteState::Silent);
}

//! The voice-capture state machine and the hallucination filter.

use dedupe_core::state_machine::{
    is_hallucination, JarvisState, StateMachine, VoiceAction,
};

// chunks of 1600 samples at 16 kHz are 100 ms each; ten silent ones end a
// phrase
const CHUNK: u64 = 1600;

#[test]
fn machine_starts_idle() {
    let m = StateMachine::new();
    assert_eq!(m.current_state, JarvisState::Idle);
    assert_eq!(m.buffer_samples, 0);
}

#[test]
fn silence_while_idle_discards() {
    let mut m = StateMachine::new();
    assert_eq!(m.process_audio(false, CHUNK), VoiceAction::Discard);
    assert_eq!(m.current_state, JarvisState::Idle);
    assert_eq!(m.buffer_samples, 0);
}

#[test]
fn speech_starts_a_capture() {
    let mut m = StateMachine::new();
    assert_eq!(m.process_audio(true, CHUNK), VoiceAction::CaptureStarted);
    assert_eq!(m.current_state, JarvisState::Listening);
    assert_eq!(m.buffer_samples, CHUNK);
    assert_eq!(m.max_silence_frames, 10);
}

#[test]
fn speech_keeps_the_capture_running() {
    let mut m = StateMachine::new();
    m.process_audio(true, CHUNK);
    for i in 2..=20u64 {
        assert_eq!(m.process_audio(true, CHUNK), VoiceAction::Capture);
        assert_eq!(m.buffer_samples, i * CHUNK);
    }
    assert_eq!(m.current_state, JarvisState::Listening);
}

#[test]
fn a_second_of_silence_finalizes_a_long_phrase() {
    let mut m = StateMachine::new();
    m.process_audio(true, CHUNK);
    for _ in 0..9 {
        m.process_audio(true, CHUNK);
    }
    // ten silent 100 ms chunks pass the threshold; the eleventh exceeds it
    for _ in 0..10 {
        assert_eq!(m.process_audio(false, CHUNK), VoiceAction::Capture);
    }
    assert_eq!(m.process_audio(false, CHUNK), VoiceAction::Finalize);
    assert_eq!(m.current_state, JarvisState::Idle);
    assert_eq!(m.buffer_samples, 0);
}

#[test]
fn a_too_short_phrase_is_abandoned() {
    let mut m = StateMachine::new();
    // one 100 ms chunk of speech, then silence in sub-millisecond slivers:
    // when the silence threshold trips, the phrase is still under the
    // 200 ms minimum and is dropped unheard
    m.process_audio(true, CHUNK);
    for _ in 0..10 {
        assert_eq!(m.process_audio(false, 1), VoiceAction::Capture);
    }
    assert_eq!(m.process_audio(false, 1), VoiceAction::Abandon);
    assert_eq!(m.current_state, JarvisState::Idle);
    assert_eq!(m.buffer_samples, 0);
}

#[test]
fn fifteen_seconds_cuts_a_phrase_off() {
    let mut m = StateMachine::new();
    m.process_audio(true, CHUNK);
    // 100 ms per chunk: the buffer passes 15 000 ms on the 151st chunk
    for _ in 0..149 {
        assert_eq!(m.process_audio(true, CHUNK), VoiceAction::Capture);
    }
    assert_eq!(m.process_audio(true, CHUNK), VoiceAction::Finalize);
    assert_eq!(m.current_state, JarvisState::Idle);
}

#[test]
fn reset_clears_and_idles() {
    let mut m = StateMachine::new();
    m.process_audio(true, CHUNK);
    m.process_audio(true, CHUNK);
    m.reset_buffer();
    assert_eq!(m.current_state, JarvisState::Idle);
    assert_eq!(m.buffer_samples, 0);
    assert_eq!(m.silence_frames, 0);
}

#[test]
fn hallucination_filter_drops_stock_fillers() {
    assert!(is_hallucination(""));
    assert!(is_hallucination("Thank you."));
    assert!(is_hallucination("Thanks."));
    assert!(is_hallucination("[Music]"));
    assert!(is_hallucination("(coughs)"));
    assert!(is_hallucination("A"));
    assert!(is_hallucination("The"));
}

#[test]
fn hallucination_filter_keeps_real_phrases() {
    assert!(!is_hallucination("Ok"));
    assert!(!is_hallucination("open the file manager"));
    assert!(!is_hallucination("Thanks a lot"));
    assert!(!is_hallucination("stop"));
}

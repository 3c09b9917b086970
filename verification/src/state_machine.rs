//! The voice-capture state machine's decision core.
//!
//! A driver feeds audio in fixed chunks, runs voice-activity detection over
//! the raw samples, and tells this machine only whether each chunk carried
//! speech and how many samples it held. The machine decides when a phrase
//! starts, when silence or length ends it, and whether it is long enough to
//! transcribe; the driver owns the sample buffer, the transcriber and the
//! event stream, and performs whatever the returned action asks.

use vstd::prelude::*;

use crate::scanner::chars_of;
use crate::scanner::contains_lit;
use crate::scanner::contains_seq;
use crate::scanner::eq_lit;
use vstd::string::StringSliceAdditionalSpecFns;

verus! {

/// Samples per second the capture pipeline runs at.
pub const SAMPLE_RATE: u64 = 16000;

/// Milliseconds of silence that end a phrase.
pub const SILENCE_THRESHOLD_MS: u64 = 1000;

/// Phrases shorter than this are discarded, not transcribed.
pub const MIN_PHRASE_DURATION_MS: u64 = 200;

/// Phrases are cut off at this length to bound the buffer.
pub const MAX_PHRASE_DURATION_MS: u64 = 15000;

/// The capture states.
#[derive(Debug, PartialEq, Eq, Structural, Clone, Copy)]
pub enum JarvisState {
    Idle,
    Listening,
    Processing,
}

/// What the driver must do with the chunk it just fed in.
#[derive(Debug, PartialEq, Eq, Structural, Clone, Copy)]
pub enum VoiceAction {
    /// Drop the chunk: nothing was being captured and no speech started.
    Discard,
    /// Append the chunk to the phrase buffer and announce that capture
    /// started.
    CaptureStarted,
    /// Append the chunk and keep listening.
    Capture,
    /// Append the chunk, transcribe the whole buffer, then clear it and
    /// announce that capture ended.
    Finalize,
    /// Append the chunk, then clear the buffer unheard — the phrase was too
    /// short — and announce that capture ended.
    Abandon,
}

/// The accumulator's bookkeeping: the driver's sample buffer is mirrored
/// here by its length alone.
pub struct StateMachine {
    pub current_state: JarvisState,
    pub buffer_samples: u64,
    pub silence_frames: u64,
    pub max_silence_frames: u64,
}

/// The buffer length a machine can legally carry: it is cleared in the same
/// call that sees it pass the phrase cutoff, so it never exceeds the cutoff
/// by more than one chunk.
pub open spec fn wf_machine(m: StateMachine) -> bool {
    &&& m.buffer_samples <= MAX_PHRASE_DURATION_MS * (SAMPLE_RATE / 1000) + 0xffff_ffff + 1
    &&& (m.current_state is Idle ==> m.buffer_samples == 0)
}

/// One decision step, as a function of the machine and the chunk alone.
pub open spec fn spec_step(m: StateMachine, is_speech: bool, chunk_samples: u64) -> (
    StateMachine,
    VoiceAction,
) {
    let chunk_ms = chunk_samples * 1000 / (SAMPLE_RATE as int);
    let max_silence: u64 = if chunk_ms > 0 {
        ((SILENCE_THRESHOLD_MS as int) / chunk_ms) as u64
    } else {
        m.max_silence_frames
    };
    match m.current_state {
        JarvisState::Idle => {
            if is_speech {
                (
                    StateMachine {
                        current_state: JarvisState::Listening,
                        buffer_samples: chunk_samples,
                        silence_frames: 0,
                        max_silence_frames: max_silence,
                    },
                    VoiceAction::CaptureStarted,
                )
            } else {
                (
                    StateMachine { max_silence_frames: max_silence, ..m },
                    VoiceAction::Discard,
                )
            }
        },
        JarvisState::Listening => {
            let buffer: u64 = (m.buffer_samples + chunk_samples) as u64;
            let silence: u64 = if is_speech {
                0
            } else if m.silence_frames < u64::MAX {
                (m.silence_frames + 1) as u64
            } else {
                m.silence_frames
            };
            let total_ms = buffer * 1000 / (SAMPLE_RATE as int);
            if silence > max_silence || total_ms > MAX_PHRASE_DURATION_MS as int {
                let cleared = StateMachine {
                    current_state: JarvisState::Idle,
                    buffer_samples: 0,
                    silence_frames: 0,
                    max_silence_frames: max_silence,
                };
                if total_ms > MIN_PHRASE_DURATION_MS as int {
                    (cleared, VoiceAction::Finalize)
                } else {
                    (cleared, VoiceAction::Abandon)
                }
            } else {
                (
                    StateMachine {
                        current_state: JarvisState::Listening,
                        buffer_samples: buffer,
                        silence_frames: silence,
                        max_silence_frames: max_silence,
                    },
                    VoiceAction::Capture,
                )
            }
        },
        JarvisState::Processing => {
            (StateMachine { max_silence_frames: max_silence, ..m }, VoiceAction::Discard)
        },
    }
}

impl StateMachine {
    /// A fresh machine: idle, with an empty phrase buffer.
    pub fn new() -> (m: Self)
        ensures
            m.current_state is Idle,
            wf_machine(m),
            m == (StateMachine {
                current_state: JarvisState::Idle,
                buffer_samples: 0,
                silence_frames: 0,
                max_silence_frames: 0,
            }),
    {
        StateMachine {
            current_state: JarvisState::Idle,
            buffer_samples: 0,
            silence_frames: 0,
            max_silence_frames: 0,
        }
    }

    /// Feed the verdict on one audio chunk and learn what to do with it.
    pub fn process_audio(&mut self, is_speech: bool, chunk_samples: u64) -> (action: VoiceAction)
        requires
            wf_machine(*old(self)),
            chunk_samples <= 0xffff_ffff,
        ensures
            wf_machine(*final(self)),
            (*final(self), action) == spec_step(*old(self), is_speech, chunk_samples),
    {
        let chunk_ms = chunk_samples * 1000 / SAMPLE_RATE;
        if chunk_ms > 0 {
            self.max_silence_frames = SILENCE_THRESHOLD_MS / chunk_ms;
        }
        match self.current_state {
            JarvisState::Idle => {
                if is_speech {
                    self.current_state = JarvisState::Listening;
                    self.buffer_samples = chunk_samples;
                    self.silence_frames = 0;
                    VoiceAction::CaptureStarted
                } else {
                    VoiceAction::Discard
                }
            },
            JarvisState::Listening => {
                self.buffer_samples = self.buffer_samples + chunk_samples;
                if is_speech {
                    self.silence_frames = 0;
                } else if self.silence_frames < u64::MAX {
                    self.silence_frames = self.silence_frames + 1;
                }
                let total_ms = self.buffer_samples * 1000 / SAMPLE_RATE;
                if self.silence_frames > self.max_silence_frames || total_ms
                    > MAX_PHRASE_DURATION_MS {
                    let long_enough = total_ms > MIN_PHRASE_DURATION_MS;
                    self.current_state = JarvisState::Idle;
                    self.buffer_samples = 0;
                    self.silence_frames = 0;
                    if long_enough {
                        VoiceAction::Finalize
                    } else {
                        VoiceAction::Abandon
                    }
                } else {
                    VoiceAction::Capture
                }
            },
            JarvisState::Processing => VoiceAction::Discard,
        }
    }

    /// Clear the phrase buffer and return to idle; the driver clears its
    /// sample buffer and announces that capture ended.
    pub fn reset_buffer(&mut self)
        ensures
            wf_machine(*final(self)),
            final(self).current_state is Idle,
            *final(self) == (StateMachine {
                current_state: JarvisState::Idle,
                buffer_samples: 0,
                silence_frames: 0,
                max_silence_frames: old(self).max_silence_frames,
            }),
    {
        self.current_state = JarvisState::Idle;
        self.buffer_samples = 0;
        self.silence_frames = 0;
    }
}

/// What the hallucination filter drops: transcripts that are empty, stock
/// fillers, bracketed annotations, or too short to mean anything — unless
/// they contain "Ok". Length is measured in bytes, as the driver sees it.
pub open spec fn spec_hallucination(t: &str) -> bool {
    ||| t@.len() == 0
    ||| t@ == "Thank you."@
    ||| t@ == "Thanks."@
    ||| t@.len() > 0 && (t@[0] == '[' || t@[0] == '(')
    ||| t.spec_bytes().len() < 4 && !contains_seq(t@, "Ok"@)
}

/// Decide whether a trimmed transcript is a transcriber hallucination to be
/// dropped rather than reported.
pub fn is_hallucination(text: &str) -> (r: bool)
    ensures
        r == spec_hallucination(text),
{
    let v = chars_of(text);
    if v.len() == 0 {
        return true;
    }
    if eq_lit(&v, "Thank you.") || eq_lit(&v, "Thanks.") {
        return true;
    }
    if v[0] == '[' || v[0] == '(' {
        return true;
    }
    if text.as_bytes().len() < 4 && !contains_lit(&v, "Ok") {
        return true;
    }
    false
}

} // verus!

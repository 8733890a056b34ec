//! Speech-synthesis request broker: task bookkeeping, parameter mapping,
//! voice descriptions and the framed audio/event stream protocol.
use vstd::prelude::*;

pub mod error;
pub mod event;
pub mod params;
pub mod registry;
pub mod stream;
pub mod voice;

use crate::error::ProviderError;
use crate::params::{scaled_unit, NORMAL_RATE, PITCH_SCALE, VOLUME_SCALE};
use crate::registry::{
    control_spec, insert_spec, task_key, ControlOp, SinkAction, TaskRegistry,
};
use crate::voice::{has_identifier, Voice};

verus! {

/// Engine settings of one request: the chosen voice and the mapped parameters.
#[derive(Clone, Copy, Debug, PartialEq, Eq, Structural)]
pub struct SynthesisSettings {
    /// Position of the voice in the engine's list.
    pub voice: usize,
    pub pitch: i32,
    pub rate: i32,
    pub volume: i32,
}

/// The provider object that the remote-procedure surface is served from.
pub struct Speaker {}

impl Speaker {
    pub fn new() -> (r: Speaker)
        ensures
            r == (Speaker {}),
    {
        Speaker {}
    }

    /// Settings for a request: the first voice with identifier `voice_id`, and
    /// pitch, rate and volume (bit patterns of single-precision unit values)
    /// mapped onto the engine's scales. An unknown voice is an error.
    pub fn settings(
        &self,
        voices: &Vec<Voice>,
        voice_id: &String,
        pitch: u32,
        rate: u32,
        volume: u32,
    ) -> (r: Result<SynthesisSettings, ProviderError>)
        ensures
            match r {
                Ok(st) => {
                    &&& st.voice < voices@.len()
                    &&& has_identifier(voices@[st.voice as int], voice_id@)
                    &&& forall|j: int|
                        0 <= j < st.voice ==> !has_identifier(#[trigger] voices@[j], voice_id@)
                    &&& st.pitch == scaled_unit(pitch, PITCH_SCALE as nat)
                    &&& st.rate == scaled_unit(rate, NORMAL_RATE as nat)
                    &&& st.volume == scaled_unit(volume, VOLUME_SCALE as nat)
                },
                Err(e) => {
                    &&& e == ProviderError::VoiceNotFound
                    &&& forall|j: int|
                        0 <= j < voices@.len() ==> !has_identifier(#[trigger] voices@[j], voice_id@)
                },
            },
    {
        let voice = match crate::voice::find_voice(voices, voice_id) {
            Ok(i) => i,
            Err(e) => return Err(e),
        };
        Ok(
            SynthesisSettings {
                voice,
                pitch: crate::params::engine_pitch(pitch),
                rate: crate::params::engine_rate(rate),
                volume: crate::params::engine_volume(volume),
            },
        )
    }

    /// Admits a local playback request of `caller` for its task `task_id`:
    /// the caller must be known, the voice must exist and the key must be free.
    /// On success the task is registered and its engine settings are returned;
    /// on failure the registry is left as it was.
    pub fn start_task(
        &self,
        registry: &mut TaskRegistry,
        caller: Option<String>,
        task_id: u64,
        text_len: u64,
        voices: &Vec<Voice>,
        voice_id: &String,
        pitch: u32,
        rate: u32,
        volume: u32,
    ) -> (r: Result<SynthesisSettings, ProviderError>)
        requires
            old(registry).wf(),
        ensures
            final(registry).wf(),
            caller is None ==> r == Err::<SynthesisSettings, ProviderError>(
                ProviderError::MissingCallerIdentity,
            ) && final(registry)@ == old(registry)@,
            caller is Some && (forall|j: int|
                0 <= j < voices@.len() ==> !has_identifier(#[trigger] voices@[j], voice_id@))
                ==> r == Err::<SynthesisSettings, ProviderError>(ProviderError::VoiceNotFound)
                && final(registry)@ == old(registry)@,
            caller is Some && (exists|j: int|
                0 <= j < voices@.len() && has_identifier(#[trigger] voices@[j], voice_id@))
                ==> (final(registry)@, match r {
                Ok(_) => Ok(()),
                Err(e) => Err(e),
            }) == insert_spec(old(registry)@, (caller->0@, task_id), text_len),
            r matches Ok(st) ==> {
                &&& st.voice < voices@.len()
                &&& has_identifier(voices@[st.voice as int], voice_id@)
                &&& forall|j: int|
                    0 <= j < st.voice ==> !has_identifier(#[trigger] voices@[j], voice_id@)
                &&& st.pitch == scaled_unit(pitch, PITCH_SCALE as nat)
                &&& st.rate == scaled_unit(rate, NORMAL_RATE as nat)
                &&& st.volume == scaled_unit(volume, VOLUME_SCALE as nat)
            },
    {
        let key = match task_key(caller, task_id) {
            Ok(k) => k,
            Err(e) => return Err(e),
        };
        let settings = match self.settings(voices, voice_id, pitch, rate, volume) {
            Ok(st) => st,
            Err(e) => return Err(e),
        };
        match registry.insert(key, text_len) {
            Ok(()) => Ok(settings),
            Err(e) => Err(e),
        }
    }

    /// A cancel, pause or resume request of `caller` for its task `task_id`.
    /// An unknown caller is an error; an unknown task is left alone.
    pub fn control(
        &self,
        registry: &mut TaskRegistry,
        caller: Option<String>,
        task_id: u64,
        op: ControlOp,
    ) -> (r: Result<SinkAction, ProviderError>)
        requires
            old(registry).wf(),
        ensures
            final(registry).wf(),
            match caller {
                None => r == Err::<SinkAction, ProviderError>(ProviderError::MissingCallerIdentity)
                    && final(registry)@ == old(registry)@,
                Some(c) => r matches Ok(a) && (final(registry)@, a) == control_spec(
                    old(registry)@,
                    (c@, task_id),
                    op,
                ),
            },
    {
        let key = match task_key(caller, task_id) {
            Ok(k) => k,
            Err(e) => return Err(e),
        };
        Ok(registry.control(&key, op))
    }
}

} // verus!

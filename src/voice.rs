use vstd::prelude::*;

use crate::error::ProviderError;

verus! {

/// A synthesis profile offered by the engine.
pub struct Voice {
    pub name: String,
    pub identifier: String,
    pub languages: Vec<String>,
}

/// Capability flag: the voice reports word boundaries.
pub const EVENTS_WORD: u64 = 1;

/// Capability flag: the voice reports sentence boundaries.
pub const EVENTS_SENTENCE: u64 = 2;

/// Output format of every voice: 16-bit little-endian mono samples at 22050 Hz.
pub open spec fn audio_format_spec() -> Seq<char> {
    "audio/x-spiel,format=S16LE,channels=1,rate=22050"@
}

/// The capability flags that every voice of the engine carries.
pub open spec fn voice_features_spec() -> u64 {
    EVENTS_WORD | EVENTS_SENTENCE
}

/// The record that the voice listing reports for one voice.
pub type VoiceRecord = (String, String, String, u64, Vec<String>);

pub fn audio_format() -> (r: String)
    ensures
        r@ == audio_format_spec(),
{
    "audio/x-spiel,format=S16LE,channels=1,rate=22050".to_owned()
}

pub fn voice_features() -> (r: u64)
    ensures
        r == voice_features_spec(),
        r == 3,
{
    let r = EVENTS_WORD | EVENTS_SENTENCE;
    assert(r == 3) by (bit_vector)
        requires
            r == 1u64 | 2u64,
    ;
    r
}

/// Turns a voice into its listing record: name, identifier, format, flags, languages.
pub fn describe_voice(v: Voice) -> (r: VoiceRecord)
    ensures
        r.0@ == v.name@,
        r.1@ == v.identifier@,
        r.2@ == audio_format_spec(),
        r.3 == voice_features_spec(),
        r.4@ == v.languages@,
{
    (v.name, v.identifier, audio_format(), voice_features(), v.languages)
}

/// Listing records for all voices, in the given order.
pub fn describe_voices(voices: Vec<Voice>) -> (r: Vec<VoiceRecord>)
    ensures
        r@.len() == voices@.len(),
        forall|i: int|
            0 <= i < r@.len() ==> {
                &&& (#[trigger] r@[i]).0@ == voices@[i].name@
                &&& r@[i].1@ == voices@[i].identifier@
                &&& r@[i].2@ == audio_format_spec()
                &&& r@[i].3 == voice_features_spec()
                &&& r@[i].4@ == voices@[i].languages@
            },
{
    let ghost orig = voices@;
    let mut rest = voices;
    let mut out: Vec<VoiceRecord> = Vec::new();
    while rest.len() > 0
        invariant
            out@.len() + rest@.len() == orig.len(),
            rest@ == orig.subrange(out@.len() as int, orig.len() as int),
            forall|i: int|
                0 <= i < out@.len() ==> {
                    &&& (#[trigger] out@[i]).0@ == orig[i].name@
                    &&& out@[i].1@ == orig[i].identifier@
                    &&& out@[i].2@ == audio_format_spec()
                    &&& out@[i].3 == voice_features_spec()
                    &&& out@[i].4@ == orig[i].languages@
                },
        decreases rest@.len(),
    {
        let v = rest.remove(0);
        let rec = describe_voice(v);
        out.push(rec);
    }
    out
}

/// Identifier match of one voice, as a spec predicate.
pub open spec fn has_identifier(v: Voice, id: Seq<char>) -> bool {
    v.identifier@ == id
}

/// Position of the first voice whose identifier is `id`.
pub fn find_voice(voices: &Vec<Voice>, id: &String) -> (r: Result<usize, ProviderError>)
    ensures
        match r {
            Ok(i) => {
                &&& i < voices@.len()
                &&& has_identifier(voices@[i as int], id@)
                &&& forall|j: int| 0 <= j < i ==> !has_identifier(#[trigger] voices@[j], id@)
            },
            Err(e) => {
                &&& e == ProviderError::VoiceNotFound
                &&& forall|j: int|
                    0 <= j < voices@.len() ==> !has_identifier(#[trigger] voices@[j], id@)
            },
        },
{
    let mut i: usize = 0;
    while i < voices.len()
        invariant
            i <= voices@.len(),
            forall|j: int| 0 <= j < i ==> !has_identifier(#[trigger] voices@[j], id@),
        decreases voices@.len() - i,
    {
        if voices[i].identifier == *id {
            return Ok(i);
        }
        i = i + 1;
    }
    Err(ProviderError::VoiceNotFound)
}

} // verus!

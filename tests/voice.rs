use espeak_provider::error::ProviderError;
use espeak_provider::voice::{audio_format, describe_voice, describe_voices, find_voice, voice_features, Voice, EVENTS_SENTENCE, EVENTS_WORD};
use espeak_provider::Speaker;

fn voice(name: &str, id: &str) -> Voice {
    Voice { name: name.to_string(), identifier: id.to_string(), languages: vec!["en".to_string()] }
}

#[test]
fn voices_are_listed_with_format_and_flags() {
    let rec = describe_voice(voice("English", "gmw/en"));
    assert_eq!(rec.0, "English");
    assert_eq!(rec.1, "gmw/en");
    assert_eq!(rec.2, "audio/x-spiel,format=S16LE,channels=1,rate=22050");
    assert_eq!(rec.3, EVENTS_WORD | EVENTS_SENTENCE);
    assert_eq!(rec.4, vec!["en".to_string()]);
    assert_eq!(voice_features(), 3);
    assert_eq!(audio_format(), rec.2);
    let all = describe_voices(vec![voice("A", "a"), voice("B", "b")]);
    assert_eq!(all.len(), 2);
    assert_eq!(all[1].1, "b");
}

#[test]
fn voice_lookup_finds_first_match() {
    let vs = vec![voice("A", "a"), voice("B", "b"), voice("B2", "b")];
    assert_eq!(find_voice(&vs, &"b".to_string()), Ok(1));
    assert_eq!(find_voice(&vs, &"z".to_string()), Err(ProviderError::VoiceNotFound));
    assert_eq!(find_voice(&vec![], &"a".to_string()), Err(ProviderError::VoiceNotFound));
}

#[test]
fn settings_map_voice_and_parameters() {
    let sp = Speaker::new();
    let vs = vec![voice("A", "a"), voice("B", "b")];
    let st = sp.settings(&vs, &"b".to_string(), 0.5f32.to_bits(), 1.0f32.to_bits(), 1.0f32.to_bits()).unwrap();
    assert_eq!((st.voice, st.pitch, st.rate, st.volume), (1, 25, 175, 100));
    assert_eq!(
        sp.settings(&vs, &"c".to_string(), 0, 0, 0),
        Err(ProviderError::VoiceNotFound)
    );
}

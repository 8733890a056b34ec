use espeak_provider::error::ProviderError;
use espeak_provider::registry::{task_key, ControlOp, SinkAction, TaskPhase, TaskRegistry};
use espeak_provider::voice::Voice;
use espeak_provider::Speaker;

fn voices() -> Vec<Voice> {
    vec![
        Voice { name: "English".to_string(), identifier: "en".to_string(), languages: vec!["en".to_string()] },
        Voice { name: "German".to_string(), identifier: "de".to_string(), languages: vec!["de".to_string()] },
    ]
}

#[test]
fn start_task_registers_and_maps_settings() {
    let sp = Speaker::new();
    let mut reg = TaskRegistry::new();
    let st = sp
        .start_task(&mut reg, Some(":1.4".to_string()), 3, 11, &voices(), &"de".to_string(),
            0.5f32.to_bits(), 1.0f32.to_bits(), 1.0f32.to_bits())
        .unwrap();
    assert_eq!((st.voice, st.pitch, st.rate, st.volume), (1, 25, 175, 100));
    let k = task_key(Some(":1.4".to_string()), 3).unwrap();
    let status = reg.lookup(&k).unwrap();
    assert_eq!((status.phase, status.delivered, status.text_len), (TaskPhase::Created, 0, 11));
}

#[test]
fn start_task_errors_leave_registry_alone() {
    let sp = Speaker::new();
    let mut reg = TaskRegistry::new();
    let one = 1.0f32.to_bits();
    assert_eq!(
        sp.start_task(&mut reg, None, 3, 11, &voices(), &"de".to_string(), one, one, one),
        Err(ProviderError::MissingCallerIdentity)
    );
    assert_eq!(
        sp.start_task(&mut reg, Some(":1.4".to_string()), 3, 11, &voices(), &"fr".to_string(), one, one, one),
        Err(ProviderError::VoiceNotFound)
    );
    assert!(!reg.contains(&task_key(Some(":1.4".to_string()), 3).unwrap()));
    assert!(sp
        .start_task(&mut reg, Some(":1.4".to_string()), 3, 11, &voices(), &"en".to_string(), one, one, one)
        .is_ok());
    assert_eq!(
        sp.start_task(&mut reg, Some(":1.4".to_string()), 3, 5, &voices(), &"en".to_string(), one, one, one),
        Err(ProviderError::TaskAlreadyActive)
    );
    assert_eq!(reg.lookup(&task_key(Some(":1.4".to_string()), 3).unwrap()).unwrap().text_len, 11);
}

#[test]
fn control_is_scoped_to_the_caller() {
    let sp = Speaker::new();
    let mut reg = TaskRegistry::new();
    let one = 1.0f32.to_bits();
    sp.start_task(&mut reg, Some(":1.4".to_string()), 3, 11, &voices(), &"en".to_string(), one, one, one)
        .unwrap();
    assert_eq!(sp.control(&mut reg, None, 3, ControlOp::Cancel), Err(ProviderError::MissingCallerIdentity));
    assert_eq!(sp.control(&mut reg, Some(":1.5".to_string()), 3, ControlOp::Pause), Ok(SinkAction::Nothing));
    assert_eq!(sp.control(&mut reg, Some(":1.4".to_string()), 3, ControlOp::Pause), Ok(SinkAction::Pause));
    assert_eq!(sp.control(&mut reg, Some(":1.4".to_string()), 3, ControlOp::Resume), Ok(SinkAction::Play));
    assert_eq!(sp.control(&mut reg, Some(":1.4".to_string()), 3, ControlOp::Cancel), Ok(SinkAction::Stop));
    assert!(reg.contains(&task_key(Some(":1.4".to_string()), 3).unwrap()));
}

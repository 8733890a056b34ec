use espeak_provider::error::ProviderError;
use espeak_provider::event::{BoundaryEvent, Notification};
use espeak_provider::registry::{task_key, SinkAction, TaskKey, TaskPhase, TaskRegistry};

fn key(caller: &str, id: u64) -> TaskKey {
    task_key(Some(caller.to_string()), id).unwrap()
}

#[test]
fn missing_caller_has_no_key() {
    assert!(matches!(task_key(None, 3), Err(ProviderError::MissingCallerIdentity)));
}

#[test]
fn different_callers_same_task_id_do_not_collide() {
    let mut reg = TaskRegistry::new();
    assert_eq!(reg.insert(key(":1.5", 7), 10), Ok(()));
    assert_eq!(reg.insert(key(":1.6", 7), 20), Ok(()));
    assert_eq!(reg.lookup(&key(":1.5", 7)).unwrap().text_len, 10);
    assert_eq!(reg.lookup(&key(":1.6", 7)).unwrap().text_len, 20);
    assert_eq!(reg.cancel(&key(":1.5", 7)), SinkAction::Stop);
    assert_eq!(reg.deliver(&key(":1.5", 7), BoundaryEvent::End), Some(Notification::SpeechEnd(7)));
    assert!(!reg.contains(&key(":1.5", 7)));
    assert!(reg.contains(&key(":1.6", 7)));
}

#[test]
fn control_of_unknown_task_is_noop() {
    let mut reg = TaskRegistry::new();
    reg.insert(key(":1.1", 1), 5).unwrap();
    assert_eq!(reg.cancel(&key(":1.1", 2)), SinkAction::Nothing);
    assert_eq!(reg.pause(&key(":1.2", 1)), SinkAction::Nothing);
    assert_eq!(reg.resume(&key(":1.2", 1)), SinkAction::Nothing);
    assert!(!reg.contains(&key(":1.1", 2)));
    assert_eq!(reg.lookup(&key(":1.1", 1)).unwrap().phase, TaskPhase::Created);
}

#[test]
fn end_is_observed_once_and_removes_the_key() {
    let mut reg = TaskRegistry::new();
    let k = key(":1.1", 4);
    reg.insert(key(":1.1", 4), 12).unwrap();
    assert_eq!(reg.deliver(&k, BoundaryEvent::Start), Some(Notification::SpeechStart(4)));
    assert_eq!(
        reg.deliver(&k, BoundaryEvent::Word(0, 5)),
        Some(Notification::SpeechRangeStart(4, 0, 5))
    );
    assert_eq!(reg.deliver(&k, BoundaryEvent::Sentence(0)), None);
    assert_eq!(reg.deliver(&k, BoundaryEvent::End), Some(Notification::SpeechEnd(4)));
    assert!(!reg.contains(&k));
    assert_eq!(reg.deliver(&k, BoundaryEvent::End), None);
    assert_eq!(reg.deliver(&k, BoundaryEvent::Word(6, 5)), None);
    assert!(!reg.remove(&k));
}

#[test]
fn word_notifications_stay_within_the_utterance() {
    let mut reg = TaskRegistry::new();
    let k = key(":1.3", 9);
    reg.insert(key(":1.3", 9), 10).unwrap();
    assert_eq!(
        reg.deliver(&k, BoundaryEvent::Word(6, 8)),
        Some(Notification::SpeechRangeStart(9, 6, 10))
    );
    assert_eq!(
        reg.deliver(&k, BoundaryEvent::Word(15, 3)),
        Some(Notification::SpeechRangeStart(9, 10, 10))
    );
    assert_eq!(
        reg.deliver(&k, BoundaryEvent::Word(u64::MAX, u64::MAX)),
        Some(Notification::SpeechRangeStart(9, 10, 10))
    );
}

#[test]
fn pause_then_resume_keeps_delivered_events() {
    let mut reg = TaskRegistry::new();
    let k = key(":1.8", 2);
    reg.insert(key(":1.8", 2), 20).unwrap();
    reg.deliver(&k, BoundaryEvent::Start);
    reg.deliver(&k, BoundaryEvent::Word(0, 3));
    let before = reg.lookup(&k).unwrap();
    assert_eq!(before.delivered, 2);
    assert_eq!(before.phase, TaskPhase::Speaking);
    assert_eq!(reg.pause(&k), SinkAction::Pause);
    assert_eq!(reg.lookup(&k).unwrap().phase, TaskPhase::Paused);
    assert_eq!(reg.resume(&k), SinkAction::Play);
    let after = reg.lookup(&k).unwrap();
    assert_eq!(after.phase, TaskPhase::Speaking);
    assert_eq!(after.delivered, 2);
    assert_eq!(
        reg.deliver(&k, BoundaryEvent::Word(4, 2)),
        Some(Notification::SpeechRangeStart(2, 4, 6))
    );
    assert_eq!(reg.lookup(&k).unwrap().delivered, 3);
}

#[test]
fn key_is_reusable_only_after_end() {
    let mut reg = TaskRegistry::new();
    let k = key(":1.9", 1);
    assert_eq!(reg.insert(key(":1.9", 1), 3), Ok(()));
    assert_eq!(reg.insert(key(":1.9", 1), 3), Err(ProviderError::TaskAlreadyActive));
    reg.deliver(&k, BoundaryEvent::End);
    assert_eq!(reg.insert(key(":1.9", 1), 3), Ok(()));
    assert!(reg.remove(&k));
    assert!(!reg.contains(&k));
}

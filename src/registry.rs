use vstd::prelude::*;

use crate::error::ProviderError;
use crate::event::{word_bounds, word_range, BoundaryEvent, Notification};

verus! {

/// Identifies a task: the caller's transport identity and the caller's own task id.
pub struct TaskKey {
    pub caller: String,
    pub task_id: u64,
}

impl View for TaskKey {
    type V = (Seq<char>, u64);

    open spec fn view(&self) -> (Seq<char>, u64) {
        (self.caller@, self.task_id)
    }
}

/// Forms the key of a task; a request whose sender is unknown gets no key.
pub fn task_key(caller: Option<String>, task_id: u64) -> (r: Result<TaskKey, ProviderError>)
    ensures
        match caller {
            Some(c) => r matches Ok(k) && k@ == (c@, task_id),
            None => r == Err::<TaskKey, ProviderError>(ProviderError::MissingCallerIdentity),
        },
{
    match caller {
        Some(c) => Ok(TaskKey { caller: c, task_id }),
        None => Err(ProviderError::MissingCallerIdentity),
    }
}

/// Playback phase of an active task. A task that has ended has no entry.
#[derive(Clone, Copy, Debug, PartialEq, Eq, Structural)]
pub enum TaskPhase {
    Created,
    Speaking,
    Paused,
}

/// What the registry knows of an active task.
#[derive(Clone, Copy, Debug, PartialEq, Eq, Structural)]
pub struct TaskStatus {
    pub phase: TaskPhase,
    /// Boundary notifications handed out so far (saturating).
    pub delivered: u64,
    /// Length of the utterance in characters.
    pub text_len: u64,
}

/// A control request on a task.
#[derive(Clone, Copy, Debug, PartialEq, Eq, Structural)]
pub enum ControlOp {
    Cancel,
    Pause,
    Resume,
}

/// What to do with the task's output resource.
#[derive(Clone, Copy, Debug, PartialEq, Eq, Structural)]
pub enum SinkAction {
    Nothing,
    Stop,
    Pause,
    Play,
}

pub type KeyView = (Seq<char>, u64);

pub type RegistryModel = Map<KeyView, TaskStatus>;

/// Adding a task: refused while the key is active, else a fresh entry.
pub open spec fn insert_spec(m: RegistryModel, k: KeyView, text_len: u64) -> (
    RegistryModel,
    Result<(), ProviderError>,
) {
    if m.contains_key(k) {
        (m, Err(ProviderError::TaskAlreadyActive))
    } else {
        (m.insert(k, TaskStatus { phase: TaskPhase::Created, delivered: 0, text_len }), Ok(()))
    }
}

/// Control of a task: only the phase of an active task changes; an unknown key
/// is left alone. Cancelling asks the output to stop; the entry goes once the
/// end of the task is observed.
pub open spec fn control_spec(m: RegistryModel, k: KeyView, op: ControlOp) -> (
    RegistryModel,
    SinkAction,
) {
    if !m.contains_key(k) {
        (m, SinkAction::Nothing)
    } else {
        match op {
            ControlOp::Cancel => (m, SinkAction::Stop),
            ControlOp::Pause => (m.insert(k, TaskStatus { phase: TaskPhase::Paused, ..m[k] }), SinkAction::Pause),
            ControlOp::Resume => (m.insert(k, TaskStatus { phase: TaskPhase::Speaking, ..m[k] }), SinkAction::Play),
        }
    }
}

pub open spec fn bump(n: u64) -> u64 {
    if n < u64::MAX {
        (n + 1) as u64
    } else {
        n
    }
}

/// Status of a task after a notification has been handed out for it.
pub open spec fn notified(s: TaskStatus, phase: TaskPhase) -> TaskStatus {
    TaskStatus { phase, delivered: bump(s.delivered), text_len: s.text_len }
}

/// A boundary event of a task: the notification it gives and the registry after it.
/// Events of tasks without an entry give nothing; the end removes the entry.
pub open spec fn deliver_spec(m: RegistryModel, k: KeyView, e: BoundaryEvent) -> (
    RegistryModel,
    Option<Notification>,
) {
    if !m.contains_key(k) {
        (m, None)
    } else {
        let s = m[k];
        match e {
            BoundaryEvent::Start => (
                m.insert(
                    k,
                    notified(s, if s.phase == TaskPhase::Paused { TaskPhase::Paused } else { TaskPhase::Speaking }),
                ),
                Some(Notification::SpeechStart(k.1)),
            ),
            BoundaryEvent::Word(start, len) => (
                m.insert(k, notified(s, s.phase)),
                Some(
                    Notification::SpeechRangeStart(
                        k.1,
                        word_bounds(start, len, s.text_len).0,
                        word_bounds(start, len, s.text_len).1,
                    ),
                ),
            ),
            BoundaryEvent::Sentence(_) => (m, None),
            BoundaryEvent::End => (m.remove(k), Some(Notification::SpeechEnd(k.1))),
        }
    }
}

/// The active tasks, at most one per key.
pub struct TaskRegistry {
    entries: Vec<(TaskKey, TaskStatus)>,
    model: Ghost<RegistryModel>,
}

impl View for TaskRegistry {
    type V = RegistryModel;

    closed spec fn view(&self) -> RegistryModel {
        self.model@
    }
}

impl TaskRegistry {
    pub closed spec fn wf(&self) -> bool {
        &&& forall|i: int, j: int|
            0 <= i < j < self.entries@.len() ==> (#[trigger] self.entries@[i]).0@
                != (#[trigger] self.entries@[j]).0@
        &&& forall|i: int|
            0 <= i < self.entries@.len() ==> {
                &&& self.model@.contains_key((#[trigger] self.entries@[i]).0@)
                &&& self.model@[self.entries@[i].0@] == self.entries@[i].1
            }
        &&& forall|k: KeyView|
            #[trigger] self.model@.contains_key(k) ==> exists|i: int|
                0 <= i < self.entries@.len() && (#[trigger] self.entries@[i]).0@ == k
    }

    pub fn new() -> (r: TaskRegistry)
        ensures
            r.wf(),
            r@ == RegistryModel::empty(),
    {
        TaskRegistry { entries: Vec::new(), model: Ghost(Map::empty()) }
    }

    fn position(&self, key: &TaskKey) -> (r: Option<usize>)
        requires
            self.wf(),
        ensures
            match r {
                Some(i) => i < self.entries@.len() && self.entries@[i as int].0@ == key@
                    && self@.contains_key(key@),
                None => !self@.contains_key(key@),
            },
    {
        let mut i: usize = 0;
        while i < self.entries.len()
            invariant
                self.wf(),
                i <= self.entries@.len(),
                forall|j: int| 0 <= j < i ==> (#[trigger] self.entries@[j]).0@ != key@,
            decreases self.entries@.len() - i,
        {
            let e = &self.entries[i];
            if e.0.task_id == key.task_id && e.0.caller == key.caller {
                return Some(i);
            }
            i = i + 1;
        }
        None
    }

    pub fn contains(&self, key: &TaskKey) -> (r: bool)
        requires
            self.wf(),
        ensures
            r == self@.contains_key(key@),
    {
        self.position(key).is_some()
    }

    pub fn lookup(&self, key: &TaskKey) -> (r: Option<TaskStatus>)
        requires
            self.wf(),
        ensures
            r == (if self@.contains_key(key@) {
                Some(self@[key@])
            } else {
                None::<TaskStatus>
            }),
    {
        match self.position(key) {
            Some(i) => Some(self.entries[i].1),
            None => None,
        }
    }

    /// Adds a task for `key`, refused while a task with that key is active.
    pub fn insert(&mut self, key: TaskKey, text_len: u64) -> (r: Result<(), ProviderError>)
        requires
            old(self).wf(),
        ensures
            final(self).wf(),
            (final(self)@, r) == insert_spec(old(self)@, key@, text_len),
    {
        if self.position(&key).is_some() {
            return Err(ProviderError::TaskAlreadyActive);
        }
        let ghost k = key@;
        let st = TaskStatus { phase: TaskPhase::Created, delivered: 0, text_len };
        self.entries.push((key, st));
        self.model = Ghost(self.model@.insert(k, st));
        proof {
            let n = self.entries@.len() - 1;
            assert(self.entries@[n].0@ == k);
            assert forall|kk: KeyView| #[trigger] self.model@.contains_key(kk) implies exists|i: int|
                0 <= i < self.entries@.len() && (#[trigger] self.entries@[i]).0@ == kk by {
                if kk != k {
                    let i = choose|i: int| 0 <= i < old(self).entries@.len() && (#[trigger] old(self).entries@[i]).0@ == kk;
                    assert(self.entries@[i] == old(self).entries@[i]);
                }
            }
        }
        Ok(())
    }

    /// Drops the entry of `key`, if there is one; reports whether there was.
    pub fn remove(&mut self, key: &TaskKey) -> (r: bool)
        requires
            old(self).wf(),
        ensures
            final(self).wf(),
            final(self)@ == old(self)@.remove(key@),
            r == old(self)@.contains_key(key@),
    {
        match self.position(key) {
            None => {
                assert(self@.remove(key@) =~= self@);
                false
            },
            Some(i) => {
                let ghost k = key@;
                let ghost before = self.entries@;
                self.entries.remove(i);
                self.model = Ghost(self.model@.remove(k));
                proof {
                    assert forall|j: int| 0 <= j < self.entries@.len() implies (#[trigger] self.entries@[j]).0@ != k by {
                        if j < i {
                            assert(before[j] == self.entries@[j]);
                        } else {
                            assert(before[j + 1] == self.entries@[j]);
                        }
                    }
                    assert forall|kk: KeyView| #[trigger] self.model@.contains_key(kk) implies exists|j: int|
                        0 <= j < self.entries@.len() && (#[trigger] self.entries@[j]).0@ == kk by {
                        let j = choose|j: int| 0 <= j < before.len() && (#[trigger] before[j]).0@ == kk;
                        if j < i {
                            assert(self.entries@[j] == before[j]);
                        } else {
                            assert(j != i);
                            assert(self.entries@[j - 1] == before[j]);
                        }
                    }
                }
                true
            },
        }
    }

    fn set_status(&mut self, i: usize, st: TaskStatus)
        requires
            old(self).wf(),
            i < old(self).entries@.len(),
        ensures
            final(self).wf(),
            final(self)@ == old(self)@.insert(old(self).entries@[i as int].0@, st),
            final(self).entries@.len() == old(self).entries@.len(),
    {
        let ghost k = self.entries@[i as int].0@;
        let (key, _) = self.entries.remove(i);
        self.entries.insert(i, (key, st));
        self.model = Ghost(self.model@.insert(k, st));
        proof {
            assert forall|j: int| 0 <= j < self.entries@.len() && j != i implies #[trigger] self.entries@[j]
                == old(self).entries@[j] by {}
            assert forall|kk: KeyView| #[trigger] self.model@.contains_key(kk) implies exists|j: int|
                0 <= j < self.entries@.len() && (#[trigger] self.entries@[j]).0@ == kk by {
                if kk != k {
                    let j = choose|j: int| 0 <= j < old(self).entries@.len() && (#[trigger] old(self).entries@[j]).0@ == kk;
                    assert(self.entries@[j] == old(self).entries@[j]);
                } else {
                    assert(self.entries@[i as int].0@ == kk);
                }
            }
        }
    }

    /// Applies a control request to the task of `key`.
    pub fn control(&mut self, key: &TaskKey, op: ControlOp) -> (r: SinkAction)
        requires
            old(self).wf(),
        ensures
            final(self).wf(),
            (final(self)@, r) == control_spec(old(self)@, key@, op),
    {
        match self.position(key) {
            None => SinkAction::Nothing,
            Some(i) => {
                let st = self.entries[i].1;
                match op {
                    ControlOp::Cancel => SinkAction::Stop,
                    ControlOp::Pause => {
                        self.set_status(i, TaskStatus { phase: TaskPhase::Paused, ..st });
                        SinkAction::Pause
                    },
                    ControlOp::Resume => {
                        self.set_status(i, TaskStatus { phase: TaskPhase::Speaking, ..st });
                        SinkAction::Play
                    },
                }
            },
        }
    }

    /// Asks the output of the task of `key` to stop.
    pub fn cancel(&mut self, key: &TaskKey) -> (r: SinkAction)
        requires
            old(self).wf(),
        ensures
            final(self).wf(),
            (final(self)@, r) == control_spec(old(self)@, key@, ControlOp::Cancel),
    {
        self.control(key, ControlOp::Cancel)
    }

    /// Suspends the output of the task of `key`.
    pub fn pause(&mut self, key: &TaskKey) -> (r: SinkAction)
        requires
            old(self).wf(),
        ensures
            final(self).wf(),
            (final(self)@, r) == control_spec(old(self)@, key@, ControlOp::Pause),
    {
        self.control(key, ControlOp::Pause)
    }

    /// Resumes the output of the task of `key`.
    pub fn resume(&mut self, key: &TaskKey) -> (r: SinkAction)
        requires
            old(self).wf(),
        ensures
            final(self).wf(),
            (final(self)@, r) == control_spec(old(self)@, key@, ControlOp::Resume),
    {
        self.control(key, ControlOp::Resume)
    }

    /// Takes in a boundary event of the task of `key` and gives the notification
    /// to send for it; the end of a task removes its entry.
    pub fn deliver(&mut self, key: &TaskKey, event: BoundaryEvent) -> (r: Option<Notification>)
        requires
            old(self).wf(),
        ensures
            final(self).wf(),
            (final(self)@, r) == deliver_spec(old(self)@, key@, event),
    {
        match self.position(key) {
            None => None,
            Some(i) => {
                let st = self.entries[i].1;
                let delivered = if st.delivered < u64::MAX { st.delivered + 1 } else { st.delivered };
                match event {
                    BoundaryEvent::Start => {
                        let phase = match st.phase {
                            TaskPhase::Paused => TaskPhase::Paused,
                            _ => TaskPhase::Speaking,
                        };
                        self.set_status(i, TaskStatus { phase, delivered, text_len: st.text_len });
                        Some(Notification::SpeechStart(key.task_id))
                    },
                    BoundaryEvent::Word(start, len) => {
                        let (s, e) = word_range(start, len, st.text_len);
                        self.set_status(i, TaskStatus { phase: st.phase, delivered, text_len: st.text_len });
                        Some(Notification::SpeechRangeStart(key.task_id, s, e))
                    },
                    BoundaryEvent::Sentence(_) => None,
                    BoundaryEvent::End => {
                        self.remove(key);
                        Some(Notification::SpeechEnd(key.task_id))
                    },
                }
            },
        }
    }
}

/// Tasks of two different callers never share a key, whatever task ids they
/// use; adding the task of one caller neither is refused because of the other's
/// nor changes it.
pub proof fn lemma_callers_never_collide(
    m: RegistryModel,
    c1: Seq<char>,
    c2: Seq<char>,
    t: u64,
    text_len: u64,
)
    requires
        c1 != c2,
    ensures
        (c1, t) != (c2, t),
        insert_spec(m, (c1, t), text_len).1 is Ok <==> !m.contains_key((c1, t)),
        insert_spec(m, (c1, t), text_len).0.contains_key((c2, t)) == m.contains_key((c2, t)),
        m.contains_key((c2, t)) ==> insert_spec(m, (c1, t), text_len).0[(c2, t)] == m[(c2, t)],
{
}

/// Cancel, pause and resume on a key with no active task succeed and change nothing.
pub proof fn lemma_control_of_unknown_task_is_noop(m: RegistryModel, k: KeyView, op: ControlOp)
    requires
        !m.contains_key(k),
    ensures
        control_spec(m, k, op) == (m, SinkAction::Nothing),
{
}

/// The end of an active task gives one end notification and removes its key;
/// from then on no event of that key gives any notification.
pub proof fn lemma_end_observed_once(m: RegistryModel, k: KeyView, later: BoundaryEvent)
    requires
        m.contains_key(k),
    ensures
        deliver_spec(m, k, BoundaryEvent::End).1 == Some(Notification::SpeechEnd(k.1)),
        !deliver_spec(m, k, BoundaryEvent::End).0.contains_key(k),
        deliver_spec(deliver_spec(m, k, BoundaryEvent::End).0, k, later).1 is None,
        deliver_spec(deliver_spec(m, k, BoundaryEvent::End).0, k, later).0 == deliver_spec(
            m,
            k,
            BoundaryEvent::End,
        ).0,
{
}

/// Pausing and then resuming a task plays it again, hands out no notification
/// and keeps its count of delivered events, so none is sent twice.
pub proof fn lemma_pause_resume_keeps_progress(m: RegistryModel, k: KeyView)
    requires
        m.contains_key(k),
    ensures
        control_spec(m, k, ControlOp::Pause).1 == SinkAction::Pause,
        control_spec(control_spec(m, k, ControlOp::Pause).0, k, ControlOp::Resume).1
            == SinkAction::Play,
        control_spec(control_spec(m, k, ControlOp::Pause).0, k, ControlOp::Resume).0 == m.insert(
            k,
            TaskStatus { phase: TaskPhase::Speaking, ..m[k] },
        ),
        control_spec(control_spec(m, k, ControlOp::Pause).0, k, ControlOp::Resume).0[k].delivered
            == m[k].delivered,
{
    let m1 = control_spec(m, k, ControlOp::Pause).0;
    assert(m1.insert(k, TaskStatus { phase: TaskPhase::Speaking, ..m1[k] }) =~= m.insert(
        k,
        TaskStatus { phase: TaskPhase::Speaking, ..m[k] },
    ));
}

/// A key is refused while its task is active and can be used again once that
/// task has ended.
pub proof fn lemma_key_reusable_after_end(m: RegistryModel, k: KeyView, n1: u64, n2: u64)
    requires
        !m.contains_key(k),
    ensures
        insert_spec(m, k, n1).1 is Ok,
        insert_spec(insert_spec(m, k, n1).0, k, n2).1 == Err::<(), ProviderError>(
            ProviderError::TaskAlreadyActive,
        ),
        insert_spec(deliver_spec(insert_spec(m, k, n1).0, k, BoundaryEvent::End).0, k, n2).1 is Ok,
{
    let m1 = insert_spec(m, k, n1).0;
    assert(m1.remove(k) =~= m);
}

} // verus!

//! Events about tasks and missions, listeners, and the listener registry.
use vstd::prelude::*;
use vstd::std_specs::iter::IteratorSpec;
use crate::types::TaskStatus;
use crate::types::NightError;
use crate::ids::{new_task_id, is_random_uuid};
use crate::clock::now_micros;

verus! {

/// Kinds of events.
#[derive(Clone, Copy, Debug, PartialEq, Eq, Hash, Structural)]
pub enum EventType {
    /// A task's status changed.
    TaskStatusChanged,
    /// A task finished successfully.
    TaskCompleted,
    /// A task failed.
    TaskFailed,
    /// A mission started.
    MissionStarted,
    /// A mission completed.
    MissionCompleted,
    /// A mission failed.
    MissionFailed,
}

/// An event: its kind, the task it concerns, the status change it reports,
/// a message, and when it was created (microseconds since the Unix epoch).
#[derive(Debug)]
pub struct Event {
    pub event_type: EventType,
    pub task_id: Option<u128>,
    pub previous_status: Option<TaskStatus>,
    pub new_status: Option<TaskStatus>,
    pub data: Option<String>,
    pub timestamp: i64,
}

/// Mathematical model of an [`Event`].
pub struct EventView {
    pub event_type: EventType,
    pub task_id: Option<u128>,
    pub previous_status: Option<TaskStatus>,
    pub new_status: Option<TaskStatus>,
    pub data: Option<Seq<char>>,
    pub timestamp: i64,
}

/// Model of an optional text.
pub open spec fn text_view(s: Option<String>) -> Option<Seq<char>> {
    match s {
        Some(t) => Some(t@),
        None => None,
    }
}

impl View for Event {
    type V = EventView;

    open spec fn view(&self) -> EventView {
        EventView {
            event_type: self.event_type,
            task_id: self.task_id,
            previous_status: self.previous_status,
            new_status: self.new_status,
            data: text_view(self.data),
            timestamp: self.timestamp,
        }
    }
}

/// The event carries these fields (whatever its timestamp).
pub open spec fn event_is(
    e: EventView,
    event_type: EventType,
    task_id: Option<u128>,
    previous_status: Option<TaskStatus>,
    new_status: Option<TaskStatus>,
    data: Option<Seq<char>>,
) -> bool {
    &&& e.event_type == event_type
    &&& e.task_id == task_id
    &&& e.previous_status == previous_status
    &&& e.new_status == new_status
    &&& e.data == data
}

impl Clone for Event {
    fn clone(&self) -> (res: Self)
        ensures
            res@ == self@,
    {
        let data = match &self.data {
            Some(d) => Some(d.clone()),
            None => None,
        };
        Event {
            event_type: self.event_type,
            task_id: self.task_id,
            previous_status: self.previous_status,
            new_status: self.new_status,
            data,
            timestamp: self.timestamp,
        }
    }
}

impl Event {
    /// An event with the given fields, stamped with the current time.
    pub fn new(
        event_type: EventType,
        task_id: Option<u128>,
        previous_status: Option<TaskStatus>,
        new_status: Option<TaskStatus>,
        data: Option<String>,
    ) -> (e: Event)
        ensures
            event_is(e@, event_type, task_id, previous_status, new_status, text_view(data)),
    {
        Event { event_type, task_id, previous_status, new_status, data, timestamp: now_micros() }
    }

    /// A task's status changed from `previous_status` to `new_status`.
    pub fn task_status_changed(task_id: u128, previous_status: TaskStatus, new_status: TaskStatus) -> (e: Event)
        ensures
            event_is(e@, EventType::TaskStatusChanged, Some(task_id), Some(previous_status), Some(new_status), None),
    {
        Event::new(EventType::TaskStatusChanged, Some(task_id), Some(previous_status), Some(new_status), None)
    }

    /// A task finished successfully (from `Running` to `Completed`).
    pub fn task_completed(task_id: u128) -> (e: Event)
        ensures
            event_is(e@, EventType::TaskCompleted, Some(task_id), Some(TaskStatus::Running), Some(TaskStatus::Completed), None),
    {
        Event::new(EventType::TaskCompleted, Some(task_id), Some(TaskStatus::Running), Some(TaskStatus::Completed), None)
    }

    /// A task failed (from `Running` to `Failed`), with a message.
    pub fn task_failed(task_id: u128, error_message: String) -> (e: Event)
        ensures
            event_is(
                e@,
                EventType::TaskFailed,
                Some(task_id),
                Some(TaskStatus::Running),
                Some(TaskStatus::Failed),
                Some(error_message@),
            ),
    {
        Event::new(
            EventType::TaskFailed,
            Some(task_id),
            Some(TaskStatus::Running),
            Some(TaskStatus::Failed),
            Some(error_message),
        )
    }

    /// A mission started.
    pub fn mission_started() -> (e: Event)
        ensures
            event_is(e@, EventType::MissionStarted, None, None, None, None),
    {
        Event::new(EventType::MissionStarted, None, None, None, None)
    }

    /// A mission completed.
    pub fn mission_completed() -> (e: Event)
        ensures
            event_is(e@, EventType::MissionCompleted, None, None, None, None),
    {
        Event::new(EventType::MissionCompleted, None, None, None, None)
    }

    /// A mission failed, with a message.
    pub fn mission_failed(error_message: String) -> (e: Event)
        ensures
            event_is(e@, EventType::MissionFailed, None, None, None, Some(error_message@)),
    {
        Event::new(EventType::MissionFailed, None, None, None, Some(error_message))
    }
}

/// A listener with this kind and task filter wants the event: the kinds
/// agree, and with a filter the event concerns the filtered task.
pub open spec fn wants(event_type: EventType, task_id_filter: Option<u128>, e: EventView) -> bool {
    &&& event_type == e.event_type
    &&& match task_id_filter {
        Some(f) => e.task_id == Some(f),
        None => true,
    }
}

/// A subscription to one kind of event, optionally for one task only, with
/// the callback that handles what it receives.
#[derive(Clone)]
pub struct EventListener<C> {
    pub id: u128,
    pub event_type: EventType,
    pub task_id_filter: Option<u128>,
    pub callback: C,
}

/// Mathematical model of an [`EventListener`], without its callback.
pub struct ListenerView {
    pub id: u128,
    pub event_type: EventType,
    pub task_id_filter: Option<u128>,
}

impl<C> View for EventListener<C> {
    type V = ListenerView;

    open spec fn view(&self) -> ListenerView {
        ListenerView { id: self.id, event_type: self.event_type, task_id_filter: self.task_id_filter }
    }
}

impl<C> EventListener<C> {
    /// A listener with a fresh random identifier.
    pub fn new(event_type: EventType, task_id_filter: Option<u128>, callback: C) -> (l: Self)
        ensures
            l.event_type == event_type,
            l.task_id_filter == task_id_filter,
            l.callback == callback,
            is_random_uuid(l.id),
    {
        EventListener { id: new_task_id(), event_type, task_id_filter, callback }
    }

    /// Whether this listener wants `event`.
    pub fn is_interested_in(&self, event: &Event) -> (res: bool)
        ensures
            res == wants(self.event_type, self.task_id_filter, event@),
    {
        if self.event_type != event.event_type {
            return false;
        }
        match self.task_id_filter {
            Some(filter_id) => match event.task_id {
                Some(event_task_id) => filter_id == event_task_id,
                None => false,
            },
            None => true,
        }
    }
}

/// Position of a kind of event in the registry.
pub open spec fn slot_of(t: EventType) -> int {
    match t {
        EventType::TaskStatusChanged => 0,
        EventType::TaskCompleted => 1,
        EventType::TaskFailed => 2,
        EventType::MissionStarted => 3,
        EventType::MissionCompleted => 4,
        EventType::MissionFailed => 5,
    }
}

fn slot(t: EventType) -> (i: usize)
    ensures
        i == slot_of(t),
{
    match t {
        EventType::TaskStatusChanged => 0,
        EventType::TaskCompleted => 1,
        EventType::TaskFailed => 2,
        EventType::MissionStarted => 3,
        EventType::MissionCompleted => 4,
        EventType::MissionFailed => 5,
    }
}

/// The listeners of `s` whose identifier is not `id`, in order.
pub open spec fn without_id(s: Seq<ListenerView>, id: u128) -> Seq<ListenerView>
    decreases s.len(),
{
    if s.len() == 0 {
        s
    } else if s.last().id == id {
        without_id(s.drop_last(), id)
    } else {
        without_id(s.drop_last(), id).push(s.last())
    }
}

/// The stored listeners of `s` whose identifier is not `id`, in order.
pub open spec fn remove_id<C>(s: Seq<EventListener<C>>, id: u128) -> Seq<EventListener<C>>
    decreases s.len(),
{
    if s.len() == 0 {
        s
    } else if s.last().id == id {
        remove_id(s.drop_last(), id)
    } else {
        remove_id(s.drop_last(), id).push(s.last())
    }
}

/// Removing stored listeners and then forgetting their callbacks is
/// forgetting the callbacks and then removing.
pub proof fn lemma_remove_id_view<C>(s: Seq<EventListener<C>>, id: u128)
    ensures
        remove_id(s, id).map_values(|l: EventListener<C>| l@) == without_id(s.map_values(|l: EventListener<C>| l@), id),
    decreases s.len(),
{
    let v = s.map_values(|l: EventListener<C>| l@);
    if s.len() > 0 {
        lemma_remove_id_view(s.drop_last(), id);
        assert(v.drop_last() =~= s.drop_last().map_values(|l: EventListener<C>| l@));
        assert(v.last() == s.last()@);
        if s.last().id != id {
            assert(remove_id(s, id).map_values(|l: EventListener<C>| l@) =~= remove_id(s.drop_last(), id).map_values(
                |l: EventListener<C>| l@,
            ).push(s.last()@));
        }
    } else {
        assert(remove_id(s, id).map_values(|l: EventListener<C>| l@) =~= v);
    }
}

/// Removing an identifier that no listener of `s` carries leaves `s` as it is.
pub proof fn lemma_without_absent_id(s: Seq<ListenerView>, id: u128)
    requires
        forall|i: int| 0 <= i < s.len() ==> #[trigger] s[i].id != id,
    ensures
        without_id(s, id) == s,
    decreases s.len(),
{
    if s.len() > 0 {
        lemma_without_absent_id(s.drop_last(), id);
        assert(s.drop_last().push(s.last()) =~= s);
    }
}

/// Unsubscribing a listener just after subscribing it gives back the group
/// as it was, when no other listener of the group carries its identifier.
pub proof fn lemma_unsubscribe_undoes_subscribe(s: Seq<ListenerView>, l: ListenerView)
    requires
        forall|i: int| 0 <= i < s.len() ==> #[trigger] s[i].id != l.id,
    ensures
        without_id(s.push(l), l.id) == s,
{
    assert(s.push(l).drop_last() =~= s);
    lemma_without_absent_id(s, l.id);
}

/// After an unsubscription no listener carries the identifier, and every
/// listener that remains was there before.
pub proof fn lemma_without_id_removes(s: Seq<ListenerView>, id: u128)
    ensures
        forall|i: int| 0 <= i < without_id(s, id).len() ==> #[trigger] without_id(s, id)[i].id != id,
        forall|i: int| 0 <= i < without_id(s, id).len() ==> s.contains(#[trigger] without_id(s, id)[i]),
        without_id(s, id).len() <= s.len(),
    decreases s.len(),
{
    if s.len() > 0 {
        let r = without_id(s.drop_last(), id);
        lemma_without_id_removes(s.drop_last(), id);
        assert forall|i: int| 0 <= i < without_id(s, id).len() implies s.contains(#[trigger] without_id(s, id)[i]) by {
            if i < r.len() {
                assert(without_id(s, id)[i] == r[i]);
                assert(s.drop_last().contains(r[i]));
                let k = choose|k: int| 0 <= k < s.drop_last().len() && s.drop_last()[k] == r[i];
                assert(s[k] == r[i]);
            } else {
                assert(without_id(s, id)[i] == s.last());
                assert(s[s.len() - 1] == s.last());
            }
        }
        assert forall|i: int| 0 <= i < without_id(s, id).len() implies #[trigger] without_id(s, id)[i].id != id by {
            if i < r.len() {
                assert(without_id(s, id)[i] == r[i]);
            }
        }
    }
}

/// The positions in `s` of the listeners that want `e`, in increasing order.
pub open spec fn is_interest_list(s: Seq<ListenerView>, e: EventView, idx: Seq<usize>) -> bool {
    &&& forall|k: int| 0 <= k < idx.len() ==> #[trigger] idx[k] < s.len() && wants(s[idx[k] as int].event_type, s[idx[k] as int].task_id_filter, e)
    &&& forall|k1: int, k2: int| 0 <= k1 < k2 < idx.len() ==> #[trigger] idx[k1] < #[trigger] idx[k2]
    &&& forall|i: int| 0 <= i < s.len() && wants(#[trigger] s[i].event_type, s[i].task_id_filter, e) ==> exists|k: int| 0 <= k < idx.len() && idx[k] == i
}

/// Subscribers grouped by the kind of event they listen to, each group in
/// subscription order.
pub struct EventSystem<C> {
    listeners: Vec<Vec<EventListener<C>>>,
}

impl<C> EventSystem<C> {
    /// One group per kind of event.
    pub closed spec fn wf(&self) -> bool {
        self.listeners@.len() == 6
    }

    /// The stored listeners of kind `t`, callbacks included, in
    /// subscription order.
    pub closed spec fn group(&self, t: EventType) -> Seq<EventListener<C>> {
        self.listeners@[slot_of(t)]@
    }

    /// The listeners of kind `t`, in subscription order, without their
    /// callbacks.
    pub open spec fn listeners_of(&self, t: EventType) -> Seq<ListenerView> {
        self.group(t).map_values(|l: EventListener<C>| l@)
    }

    /// The number of listeners over all kinds.
    pub open spec fn total(&self) -> nat {
        self.listeners_of(EventType::TaskStatusChanged).len() + self.listeners_of(EventType::TaskCompleted).len()
            + self.listeners_of(EventType::TaskFailed).len() + self.listeners_of(EventType::MissionStarted).len()
            + self.listeners_of(EventType::MissionCompleted).len() + self.listeners_of(EventType::MissionFailed).len()
    }

    /// A registry without listeners.
    pub fn new() -> (s: Self)
        ensures
            s.wf(),
            forall|t: EventType| #[trigger] s.group(t) == Seq::<EventListener<C>>::empty(),
            forall|t: EventType| #[trigger] s.listeners_of(t) == Seq::<ListenerView>::empty(),
    {
        let mut listeners: Vec<Vec<EventListener<C>>> = Vec::new();
        let mut i: usize = 0;
        while i < 6
            invariant
                i <= 6,
                listeners@.len() == i,
                forall|j: int| 0 <= j < i ==> (#[trigger] listeners@[j])@.len() == 0,
            decreases 6 - i,
        {
            listeners.push(Vec::new());
            i = i + 1;
        }
        let s = EventSystem { listeners };
        proof {
            assert forall|t: EventType| #[trigger] s.group(t) == Seq::<EventListener<C>>::empty() by {
                assert(s.group(t) =~= Seq::<EventListener<C>>::empty());
            }
            assert forall|t: EventType| #[trigger] s.listeners_of(t) == Seq::<ListenerView>::empty() by {
                assert(s.listeners_of(t) =~= Seq::<ListenerView>::empty());
            }
        }
        s
    }

    /// Adds `listener` at the end of the group of its kind and returns its
    /// identifier.
    pub fn subscribe(&mut self, listener: EventListener<C>) -> (res: Result<u128, NightError>)
        requires
            old(self).wf(),
        ensures
            final(self).wf(),
            res == Ok::<u128, NightError>(listener.id),
            forall|t: EventType|
                #[trigger] final(self).group(t) == if t == listener.event_type {
                    old(self).group(t).push(listener)
                } else {
                    old(self).group(t)
                },
            forall|t: EventType|
                #[trigger] final(self).listeners_of(t) == if t == listener.event_type {
                    old(self).listeners_of(t).push(listener@)
                } else {
                    old(self).listeners_of(t)
                },
    {
        let k = slot(listener.event_type);
        let listener_id = listener.id;
        let ghost lv = listener@;
        let ghost whole = listener;
        let ghost before = self.listeners@;
        let mut group: Vec<EventListener<C>> = Vec::new();
        self.listeners.set_and_swap(k, &mut group);
        let ghost group0 = group@;
        group.push(listener);
        self.listeners.set_and_swap(k, &mut group);
        proof {
            assert(group0 == before[k as int]@);
            assert forall|t: EventType|
                #[trigger] self.group(t) == if t == lv.event_type {
                    old(self).group(t).push(whole)
                } else {
                    old(self).group(t)
                } by {
                if t == lv.event_type {
                    assert(self.group(t) =~= old(self).group(t).push(whole));
                } else {
                    assert(slot_of(t) != slot_of(lv.event_type));
                }
            }
            assert forall|t: EventType|
                #[trigger] self.listeners_of(t) == if t == lv.event_type {
                    old(self).listeners_of(t).push(lv)
                } else {
                    old(self).listeners_of(t)
                } by {
                if t == lv.event_type {
                    assert(self.listeners_of(t) =~= old(self).listeners_of(t).push(lv));
                } else {
                    assert(slot_of(t) != slot_of(lv.event_type));
                }
            }
        }
        Ok(listener_id)
    }

    /// Removes every listener whose identifier is `listener_id`, from every
    /// group; the others are kept, whole and in order.
    pub fn unsubscribe(&mut self, listener_id: u128) -> (res: Result<(), NightError>)
        requires
            old(self).wf(),
        ensures
            final(self).wf(),
            res is Ok,
            forall|t: EventType| #[trigger] final(self).group(t) == remove_id(old(self).group(t), listener_id),
            forall|t: EventType| #[trigger] final(self).listeners_of(t) == without_id(old(self).listeners_of(t), listener_id),
    {
        let ghost start = self.listeners@;
        let mut k: usize = 0;
        while k < 6
            invariant
                self.wf(),
                k <= 6,
                start == old(self).listeners@,
                forall|j: int|
                    0 <= j < 6 ==> (#[trigger] self.listeners@[j])@ == if j < k {
                        remove_id(start[j]@, listener_id)
                    } else {
                        start[j]@
                    },
            decreases 6 - k,
        {
            let mut group: Vec<EventListener<C>> = Vec::new();
            self.listeners.set_and_swap(k, &mut group);
            let mut kept: Vec<EventListener<C>> = Vec::new();
            let ghost all = group@;
            proof {
                assert(all == start[k as int]@);
            }
            for l in it: group.into_iter()
                invariant
                    it.seq() == all,
                    kept@ == remove_id(all.take(it.index()), listener_id),
            {
                proof {
                    assert(all.take(it.index() + 1).drop_last() == all.take(it.index()));
                    assert(all.take(it.index() + 1).last() == l);
                }
                if l.id != listener_id {
                    kept.push(l);
                }
            }
            proof {
                assert(all.take(all.len() as int) == all);
            }
            self.listeners.set_and_swap(k, &mut kept);
            k = k + 1;
        }
        proof {
            assert forall|t: EventType| #[trigger] self.group(t) == remove_id(old(self).group(t), listener_id) by {
                assert(0 <= slot_of(t) < 6);
            }
            assert forall|t: EventType| #[trigger] self.listeners_of(t) == without_id(old(self).listeners_of(t), listener_id) by {
                assert(self.group(t) == remove_id(old(self).group(t), listener_id));
                lemma_remove_id_view(old(self).group(t), listener_id);
            }
        }
        Ok(())
    }

    /// The positions, within the group of the event's kind, of the listeners
    /// that want `event`, in subscription order: the listeners that
    /// publishing `event` hands it to.
    pub fn interested_listeners(&self, event: &Event) -> (idx: Vec<usize>)
        requires
            self.wf(),
        ensures
            is_interest_list(self.listeners_of(event.event_type), event@, idx@),
    {
        let k = slot(event.event_type);
        let group = &self.listeners[k];
        let ghost s = self.listeners_of(event.event_type);
        let mut idx: Vec<usize> = Vec::new();
        let mut i: usize = 0;
        while i < group.len()
            invariant
                s == group@.map_values(|l: EventListener<C>| l@),
                i <= group.len(),
                forall|m: int| 0 <= m < idx@.len() ==> #[trigger] idx@[m] < i,
                forall|m: int| 0 <= m < idx@.len() ==> #[trigger] idx@[m] < s.len() && wants(s[idx@[m] as int].event_type, s[idx@[m] as int].task_id_filter, event@),
                forall|k1: int, k2: int| 0 <= k1 < k2 < idx@.len() ==> #[trigger] idx@[k1] < #[trigger] idx@[k2],
                forall|j: int| 0 <= j < i && wants(#[trigger] s[j].event_type, s[j].task_id_filter, event@) ==> exists|m: int| 0 <= m < idx@.len() && idx@[m] == j,
            decreases group.len() - i,
        {
            let ghost idx0 = idx@;
            if group[i].is_interested_in(event) {
                idx.push(i);
                proof {
                    assert(idx@[idx@.len() - 1] == i);
                }
            }
            proof {
                assert forall|j: int| 0 <= j < i + 1 && wants(#[trigger] s[j].event_type, s[j].task_id_filter, event@) implies exists|m: int| 0 <= m < idx@.len() && idx@[m] == j by {
                    if j < i {
                        let m = choose|m: int| 0 <= m < idx0.len() && idx0[m] == j;
                        assert(idx@[m] == j);
                    } else {
                        assert(group@[i as int]@ == s[j]);
                        assert(idx@[idx@.len() - 1] == i);
                    }
                }
            }
            i = i + 1;
        }
        idx
    }

    /// The listener at position `i` of the group of kind `t`.
    pub fn listener(&self, t: EventType, i: usize) -> (l: &EventListener<C>)
        requires
            self.wf(),
            i < self.listeners_of(t).len(),
        ensures
            *l == self.group(t)[i as int],
            l@ == self.listeners_of(t)[i as int],
    {
        let k = slot(t);
        &self.listeners[k][i]
    }

    /// The number of listeners of kind `t`.
    pub fn listener_count(&self, event_type: EventType) -> (n: usize)
        requires
            self.wf(),
        ensures
            n == self.listeners_of(event_type).len(),
    {
        self.listeners[slot(event_type)].len()
    }

    /// The number of listeners over all kinds.
    pub fn total_listener_count(&self) -> (n: usize)
        requires
            self.wf(),
            self.total() <= usize::MAX,
        ensures
            n == self.total(),
    {
        let mut n: usize = 0;
        let mut k: usize = 0;
        proof {
            reveal_with_fuel(partial_total, 7);
            assert(self.listeners_of(EventType::TaskStatusChanged).len() == self.listeners@[0]@.len());
            assert(self.listeners_of(EventType::TaskCompleted).len() == self.listeners@[1]@.len());
            assert(self.listeners_of(EventType::TaskFailed).len() == self.listeners@[2]@.len());
            assert(self.listeners_of(EventType::MissionStarted).len() == self.listeners@[3]@.len());
            assert(self.listeners_of(EventType::MissionCompleted).len() == self.listeners@[4]@.len());
            assert(self.listeners_of(EventType::MissionFailed).len() == self.listeners@[5]@.len());
        }
        while k < 6
            invariant
                self.wf(),
                self.total() <= usize::MAX,
                k <= 6,
                n == partial_total(self.listeners@, k as int),
                partial_total(self.listeners@, 6) == self.total(),
            decreases 6 - k,
        {
            proof {
                lemma_partial_total_le(self.listeners@, k as int + 1);
            }
            n = n + self.listeners[k].len();
            k = k + 1;
        }
        n
    }
}

/// Sum of the sizes of the first `k` groups.
pub open spec fn partial_total<C>(groups: Seq<Vec<EventListener<C>>>, k: int) -> int
    decreases k,
{
    if k <= 0 {
        0
    } else {
        partial_total(groups, k - 1) + groups[k - 1]@.len()
    }
}

proof fn lemma_partial_total_le<C>(groups: Seq<Vec<EventListener<C>>>, k: int)
    requires
        0 <= k <= 6,
    ensures
        partial_total(groups, k) <= partial_total(groups, 6),
    decreases 6 - k,
{
    if k < 6 {
        lemma_partial_total_le(groups, k + 1);
    }
}

} // verus!

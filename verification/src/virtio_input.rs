//! VirtIO input devices: the events they report, the queue through which they report them,
//! and what such an event means to the rest of the system.

pub mod codes;

use vstd::prelude::*;

use crate::input;
use crate::virtio::{
    chain, chain_fits, free_indices, lemma_free_indices, lemma_take_first, next_in_chain,
    pushed_descriptor, Virtqueue, VirtqueueMessage,
};
use crate::virtio_input::codes::{EV_KEY, EV_REL, REL_WHEEL, REL_X, REL_Y};

verus! {

/// The type of an input event.
#[derive(Clone, Copy, Debug, Default, PartialEq, Eq, Structural)]
pub struct InputEventType(pub u16);

/// The code of an input event: a key, a button or an axis, depending on its type.
#[derive(Clone, Copy, Debug, Default, PartialEq, Eq, Structural)]
pub struct InputEventCode(pub u16);

/// An event as an input device reports it.
#[derive(Clone, Copy, Debug, Default, PartialEq, Eq, Structural)]
pub struct InputEvent {
    pub type_: InputEventType,
    pub code: InputEventCode,
    pub value: u32,
}

/// What a device's event means to the system: a key press (reported with value zero), a
/// movement along the X or Y axis, or of the wheel; nothing for any other event.
pub open spec fn converted(event: InputEvent) -> Option<input::InputEvent> {
    if event.type_.0 == EV_KEY {
        if event.value == 0 {
            Some(input::InputEvent::KeyPress { code: event.code.0 })
        } else {
            None
        }
    } else if event.type_.0 == EV_REL {
        if event.code.0 == REL_X {
            Some(input::InputEvent::MouseMove { delta_x: event.value as i32, delta_y: 0 })
        } else if event.code.0 == REL_Y {
            Some(input::InputEvent::MouseMove { delta_x: 0, delta_y: event.value as i32 })
        } else if event.code.0 == REL_WHEEL {
            Some(input::InputEvent::MouseWheel { delta: event.value as i32 })
        } else {
            None
        }
    } else {
        None
    }
}

/// Turns a device's event into the system's input event, if it means one.
pub fn convert_input_event(event: InputEvent) -> (r: Option<input::InputEvent>)
    ensures
        r == converted(event),
{
    if event.type_.0 == EV_KEY {
        if event.value == 0 {
            return Some(input::InputEvent::KeyPress { code: event.code.0 });
        }
    } else if event.type_.0 == EV_REL {
        if event.code.0 == REL_X {
            let delta = event.value as i32;
            return Some(input::InputEvent::MouseMove { delta_x: delta, delta_y: 0 });
        } else if event.code.0 == REL_Y {
            let delta = event.value as i32;
            return Some(input::InputEvent::MouseMove { delta_x: 0, delta_y: delta });
        } else if event.code.0 == REL_WHEEL {
            let delta = event.value as i32;
            return Some(input::InputEvent::MouseWheel { delta });
        }
    }
    None
}

/// The first descriptor of the chain the device handed back in slot `j` of the used ring.
pub open spec fn used_head(queue: Virtqueue<InputEvent>, j: int) -> int {
    queue.used_ring().0[j % queue.size() as int].id as int
}

/// Hands the device every free descriptor of the event queue, each as a chain of one buffer for
/// it to write an event into.
pub fn fill_event_queue(queue: &mut Virtqueue<InputEvent>)
    requires
        old(queue).wf(),
    ensures
        final(queue).wf(),
        final(queue).size() == old(queue).size(),
        forall|i: int| 0 <= i < final(queue).size() ==> !#[trigger] final(queue).available()[i],
        final(queue).used_ring() == old(queue).used_ring(),
        final(queue).popped() == old(queue).popped(),
        forall|i: int|
            0 <= i < old(queue).size() && old(queue).descriptors()[i].next == 0 ==> #[trigger] final(queue).descriptors()[i].next == 0,
{
    let msg: Vec<VirtqueueMessage<InputEvent>> = vec![VirtqueueMessage::DeviceWrite];
    let mut more = true;
    while more
        invariant
            queue.wf(),
            queue.size() == old(queue).size(),
            msg@.len() == 1,
            msg@[0] is DeviceWrite,
            queue.used_ring() == old(queue).used_ring(),
            queue.popped() == old(queue).popped(),
            forall|i: int|
                0 <= i < old(queue).size() && old(queue).descriptors()[i].next == 0
                    ==> #[trigger] queue.descriptors()[i].next == 0,
            !more ==> forall|i: int| 0 <= i < queue.size() ==> !#[trigger] queue.available()[i],
        decreases free_indices(queue.available()).len(), if more { 1int } else { 0int },
    {
        let ghost before = queue.available();
        let ghost descs = queue.descriptors();
        proof {
            queue.lemma_wf();
            lemma_free_indices(before);
        }
        match queue.push(msg.as_slice()) {
            Ok(()) => {
                proof {
                    queue.lemma_wf();
                    let free = free_indices(before);
                    assert forall|i: int| 0 <= i < before.len() implies queue.available()[i]
                        == before.update(free[0], false)[i] by {
                        if free.take(1).contains(i) {
                            let k = choose|k: int| 0 <= k < 1 && free.take(1)[k] == i;
                            assert(k == 0);
                        }
                        if i == free[0] {
                            assert(free.take(1)[0] == i);
                        }
                    }
                    assert(queue.available() =~= before.update(free[0], false));
                    lemma_take_first(before);
                    assert forall|i: int|
                        0 <= i < old(queue).size() && old(queue).descriptors()[i].next
                            == 0 implies #[trigger] queue.descriptors()[i].next == 0 by {
                        if i == free[0] {
                            assert(queue.descriptors()[free[0]] == pushed_descriptor(
                                descs[free[0]],
                                msg@[0],
                                next_in_chain(free, 0, 1),
                            ));
                        } else {
                            assert(!free.take(1).contains(i));
                        }
                    }
                }
            },
            Err(()) => {
                proof {
                    assert forall|i: int| 0 <= i < queue.size() implies !#[trigger] queue.available()[i] by {
                        if before[i] {
                            let k = choose|k: int| 0 <= k < free_indices(before).len() && free_indices(before)[k] == i;
                        }
                    }
                }
                more = false;
            },
        }
    }
}

/// Takes every event the device has reported since the last poll, in the order it reported
/// them, and hands each buffer back to the device for another event.
///
/// The device must have handed back each chain once, each of them a descriptor in use that ends
/// its chain.
pub fn poll(queue: &mut Virtqueue<InputEvent>) -> (r: Vec<InputEvent>)
    requires
        old(queue).wf(),
        forall|i: int| 0 <= i < old(queue).size() ==> #[trigger] old(queue).descriptors()[i].next == 0,
        old(queue).popped() <= old(queue).used_ring().1,
        forall|j: int|
            old(queue).popped() <= j < old(queue).used_ring().1 ==> 0 <= #[trigger] used_head(
                *old(queue),
                j,
            ) < old(queue).size() && !old(queue).available()[used_head(*old(queue), j)],
        forall|j1: int, j2: int|
            old(queue).popped() <= j1 < j2 < old(queue).used_ring().1 ==> #[trigger] used_head(
                *old(queue),
                j1,
            ) != #[trigger] used_head(*old(queue), j2),
    ensures
        final(queue).wf(),
        final(queue).size() == old(queue).size(),
        r@.len() == old(queue).used_ring().1 - old(queue).popped(),
        forall|k: int|
            0 <= k < r@.len() ==> cloned(
                old(queue).buffers()[used_head(*old(queue), old(queue).popped() + k)],
                #[trigger] r@[k],
            ),
        final(queue).popped() == old(queue).used_ring().1,
        final(queue).used_ring() == old(queue).used_ring(),
        forall|i: int| 0 <= i < final(queue).size() ==> #[trigger] final(queue).descriptors()[i].next == 0,
{
    let ghost q0 = *queue;
    let ghost used_end = q0.used_ring().1 as int;
    let msg: Vec<VirtqueueMessage<InputEvent>> = vec![VirtqueueMessage::DeviceWrite];
    let mut out: Vec<InputEvent> = Vec::new();
    let mut more = true;
    proof {
        q0.lemma_wf();
    }
    while more
        invariant
            queue.wf(),
            q0 == *old(queue),
            queue.size() == q0.size(),
            msg@.len() == 1,
            msg@[0] is DeviceWrite,
            queue.used_ring() == q0.used_ring(),
            used_end == q0.used_ring().1 as int,
            queue.popped() == q0.popped() + out@.len(),
            queue.popped() <= used_end,
            !more ==> queue.popped() == used_end,
            forall|i: int| 0 <= i < queue.size() ==> #[trigger] queue.descriptors()[i].next == 0,
            forall|j: int|
                queue.popped() <= j < used_end ==> 0 <= #[trigger] used_head(q0, j) < q0.size()
                    && !queue.available()[used_head(q0, j)] && queue.buffers()[used_head(q0, j)]
                    == q0.buffers()[used_head(q0, j)],
            forall|j1: int, j2: int|
                q0.popped() <= j1 < j2 < used_end ==> #[trigger] used_head(q0, j1) != #[trigger] used_head(
                    q0,
                    j2,
                ),
            forall|k: int|
                0 <= k < out@.len() ==> cloned(
                    q0.buffers()[used_head(q0, q0.popped() + k)],
                    #[trigger] out@[k],
                ),
        decreases used_end - queue.popped(), if more { 1int } else { 0int },
    {
        let ghost q1 = *queue;
        let ghost p = q1.popped() as int;
        proof {
            q1.lemma_wf();
            if q1.used_ring().1 as int != p {
                let h = used_head(q0, p);
                assert(used_head(q1, p) == h);
                assert(chain_fits(q1.descriptors(), h, 1));
            }
        }
        match queue.pop(1) {
            None => {
                more = false;
            },
            Some(resp) => {
                let ghost h = used_head(q0, p);
                let ghost q2 = *queue;
                proof {
                    assert(used_head(q1, p) == h);
                    assert(chain(q1.descriptors(), h, 1) =~= seq![h]);
                    assert(chain(q1.descriptors(), h, 1)[0] == h);
                    assert(0 <= h < q1.size());
                    assert(q2.available()[h]);
                    q2.lemma_wf();
                    lemma_free_indices(q2.available());
                }
                let first = resp[0];
                match first {
                    Some(event) => {
                        out.push(event);
                    },
                    None => {
                        proof {
                            assert(false);
                        }
                    },
                }
                let pushed = queue.push(msg.as_slice());
                proof {
                    assert(pushed is Ok);
                    let free = free_indices(q2.available());
                    assert forall|j: int|
                        queue.popped() <= j < used_end implies 0 <= #[trigger] used_head(q0, j)
                            < q0.size() && !queue.available()[used_head(q0, j)]
                            && queue.buffers()[used_head(q0, j)] == q0.buffers()[used_head(q0, j)] by {
                        let hj = used_head(q0, j);
                        assert(p <= j);
                        assert(0 <= hj < q0.size());
                        assert(!q1.available()[hj]);
                        assert(q1.buffers()[hj] == q0.buffers()[hj]);
                        assert(hj != h);
                        assert(!chain(q1.descriptors(), h, 1).contains(hj));
                        assert(!q2.available()[hj]);
                        assert(q2.buffers()[hj] == q0.buffers()[hj]);
                        if free.take(1).contains(hj) {
                            let k = choose|k: int| 0 <= k < 1 && free.take(1)[k] == hj;
                            assert(q2.available()[free[0]]);
                        }
                        assert(!free.take(1).contains(hj));
                        assert(!queue.available()[hj]);
                        assert(queue.descriptors()[hj] == q2.descriptors()[hj]);
                        assert(queue.buffers()[hj] == q2.buffers()[hj]);
                    }
                    assert forall|i: int| 0 <= i < queue.size() implies #[trigger] queue.descriptors()[i].next == 0 by {
                        if i == free[0] {
                            assert(queue.descriptors()[free[0]] == pushed_descriptor(
                                q2.descriptors()[free[0]],
                                msg@[0],
                                next_in_chain(free, 0, 1),
                            ));
                        } else {
                            assert(!free.take(1).contains(i));
                        }
                    }
                }
            },
        }
    }
    out
}

/// What [`poll`] asks of the queue: every descriptor ends its chain, and the device handed
/// back, since the last poll, chains each once, each a descriptor in use.
pub open spec fn poll_ready(queue: Virtqueue<InputEvent>) -> bool {
    &&& queue.wf()
    &&& forall|i: int| 0 <= i < queue.size() ==> #[trigger] queue.descriptors()[i].next == 0
    &&& queue.popped() <= queue.used_ring().1
    &&& forall|j: int|
        queue.popped() <= j < queue.used_ring().1 ==> 0 <= #[trigger] used_head(queue, j) < queue.size()
            && !queue.available()[used_head(queue, j)]
    &&& forall|j1: int, j2: int|
        queue.popped() <= j1 < j2 < queue.used_ring().1 ==> #[trigger] used_head(queue, j1)
            != #[trigger] used_head(queue, j2)
}

/// Whether the queue is as [`poll`] asks.
pub fn is_poll_ready(queue: &Virtqueue<InputEvent>) -> (r: bool)
    requires
        queue.wf(),
    ensures
        r == poll_ready(*queue),
{
    proof {
        queue.lemma_wf();
    }
    let n = queue.queue_size();
    let mut i: usize = 0;
    while i < n
        invariant
            queue.wf(),
            n == queue.size(),
            i <= n,
            forall|k: int| 0 <= k < i ==> #[trigger] queue.descriptors()[k].next == 0,
        decreases n - i,
    {
        if queue.descriptor(i).next != 0 {
            return false;
        }
        i = i + 1;
    }
    let popped = queue.popped_count();
    let (used_end, _) = queue.used_entry(0);
    if popped > used_end as usize {
        return false;
    }
    let end = used_end as usize;
    let mut j: usize = popped;
    while j < end
        invariant
            queue.wf(),
            n == queue.size(),
            n > 0,
            popped == queue.popped(),
            end == queue.used_ring().1,
            popped <= j <= end,
            forall|i: int| 0 <= i < n ==> #[trigger] queue.descriptors()[i].next == 0,
            forall|k: int|
                popped <= k < j ==> 0 <= #[trigger] used_head(*queue, k) < n && !queue.available()[used_head(
                    *queue,
                    k,
                )],
            forall|k1: int, k2: int|
                popped <= k1 < k2 < j ==> #[trigger] used_head(*queue, k1) != #[trigger] used_head(*queue, k2),
        decreases end - j,
    {
        let (_, element) = queue.used_entry(j % n);
        let head = element.id as usize;
        assert(head as int == used_head(*queue, j as int));
        if head >= n || queue.is_free(head) {
            return false;
        }
        let mut k: usize = popped;
        while k < j
            invariant
                queue.wf(),
                n == queue.size(),
                n > 0,
                popped <= k <= j,
                j < end,
                end == queue.used_ring().1,
                popped == queue.popped(),
                head as int == used_head(*queue, j as int),
                forall|m: int| popped <= m < k ==> #[trigger] used_head(*queue, m) != head,
            decreases j - k,
        {
            let (_, other) = queue.used_entry(k % n);
            assert(other.id as int == used_head(*queue, k as int));
            if other.id as usize == head {
                proof {
                    assert(used_head(*queue, k as int) == used_head(*queue, j as int));
                }
                return false;
            }
            k = k + 1;
        }
        j = j + 1;
    }
    true
}

} // verus!

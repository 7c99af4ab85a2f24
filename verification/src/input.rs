//! User input events, and the fixed-size queue that holds them until they are read.

use vstd::prelude::*;

use crate::virtio_input::codes::KEY_Q;

verus! {

/// The number of events an [`InputQueue`] can hold at a time.
pub const QUEUE_SIZE: usize = 64;

/// A user input event.
#[derive(Clone, Copy, Debug, PartialEq, Eq, Structural)]
pub enum InputEvent {
    /// The user pressed a key.
    KeyPress { code: u16 },
    /// The user's mouse pointer moved.
    MouseMove { delta_x: i32, delta_y: i32 },
    /// The user's mouse wheel moved.
    MouseWheel { delta: i32 },
}

/// A queue of at most [`QUEUE_SIZE`] input events, oldest first.
pub struct InputQueue {
    inner: Vec<Option<InputEvent>>,
}

/// The events held in `slots`: the filled slots form a prefix.
pub open spec fn filled_prefix(slots: Seq<Option<InputEvent>>, n: int) -> bool {
    &&& 0 <= n <= slots.len()
    &&& forall|i: int| 0 <= i < n ==> (#[trigger] slots[i]) is Some
    &&& forall|i: int| n <= i < slots.len() ==> (#[trigger] slots[i]) is None
}

impl InputQueue {
    /// The slots are exactly [`QUEUE_SIZE`], and the filled ones come first.
    pub closed spec fn wf(&self) -> bool {
        &&& self.inner@.len() == QUEUE_SIZE
        &&& exists|n: int| filled_prefix(self.inner@, n)
    }

    /// The queued events, oldest first.
    pub closed spec fn view(&self) -> Seq<InputEvent> {
        let n = choose|n: int| filled_prefix(self.inner@, n);
        self.inner@.subrange(0, n).map_values(|e: Option<InputEvent>| e->0)
    }

    proof fn lemma_prefix_unique(slots: Seq<Option<InputEvent>>, n: int, m: int)
        requires
            filled_prefix(slots, n),
            filled_prefix(slots, m),
        ensures
            n == m,
    {
        if n < m {
            assert(slots[n] is None);
        } else if m < n {
            assert(slots[m] is None);
        }
    }

    proof fn lemma_view_of(&self, n: int)
        requires
            self.inner@.len() == QUEUE_SIZE,
            filled_prefix(self.inner@, n),
        ensures
            self.wf(),
            self.view().len() == n,
            forall|i: int| 0 <= i < n ==> self.inner@[i] == Some(#[trigger] self.view()[i]),
    {
        let m = choose|m: int| filled_prefix(self.inner@, m);
        Self::lemma_prefix_unique(self.inner@, n, m);
        assert forall|i: int| 0 <= i < n implies self.inner@[i] == Some(#[trigger] self.view()[i]) by {
            assert(self.inner@[i] is Some);
        }
    }

    /// An empty queue.
    pub fn new() -> (r: Self)
        ensures
            r.wf(),
            r.view() == Seq::<InputEvent>::empty(),
    {
        let mut inner: Vec<Option<InputEvent>> = Vec::new();
        let mut i: usize = 0;
        while i < QUEUE_SIZE
            invariant
                i <= QUEUE_SIZE,
                inner@.len() == i,
                forall|j: int| 0 <= j < i ==> inner@[j] is None,
            decreases QUEUE_SIZE - i,
        {
            inner.push(None);
            i = i + 1;
        }
        let r = InputQueue { inner };
        proof {
            assert(filled_prefix(r.inner@, 0));
            r.lemma_view_of(0);
        }
        r
    }

    /// Add `event` at the back. When the queue is full, the oldest event makes room and is
    /// returned.
    pub fn push(&mut self, event: InputEvent) -> (r: Option<InputEvent>)
        requires
            old(self).wf(),
        ensures
            final(self).wf(),
            old(self).view().len() < QUEUE_SIZE ==> r is None && final(self).view() == old(self).view().push(
                event,
            ),
            old(self).view().len() == QUEUE_SIZE ==> r == Some(old(self).view()[0]) && final(self).view()
                == old(self).view().drop_first().push(event),
    {
        let ghost n = choose|n: int| filled_prefix(self.inner@, n);
        proof {
            self.lemma_view_of(n);
        }
        let mut i: usize = 0;
        while i < QUEUE_SIZE
            invariant
                i <= QUEUE_SIZE,
                *self == *old(self),
                self.inner@.len() == QUEUE_SIZE,
                filled_prefix(self.inner@, n),
                forall|j: int| 0 <= j < i ==> self.inner@[j] is Some,
            decreases QUEUE_SIZE - i,
        {
            if self.inner[i].is_none() {
                proof {
                    if i < n {
                        assert(self.inner@[i as int] is Some);
                    }
                    if i > n {
                        assert(self.inner@[n] is Some);
                    }
                }
                self.inner.set(i, Some(event));
                proof {
                    assert(filled_prefix(self.inner@, n + 1));
                    self.lemma_view_of(n + 1);
                    old(self).lemma_view_of(n);
                    assert(self.view() =~= old(self).view().push(event));
                }
                return None;
            }
            i = i + 1;
        }
        proof {
            if n < QUEUE_SIZE {
                assert(self.inner@[n] is Some);
            }
            assert(n == QUEUE_SIZE);
        }
        let missed_event = self.inner[0];
        let mut j: usize = 0;
        while j + 1 < QUEUE_SIZE
            invariant
                j + 1 <= QUEUE_SIZE,
                self.inner@.len() == QUEUE_SIZE,
                forall|k: int| 0 <= k < j ==> self.inner@[k] == old(self).inner@[k + 1],
                forall|k: int| j <= k < QUEUE_SIZE ==> self.inner@[k] == old(self).inner@[k],
            decreases QUEUE_SIZE - j,
        {
            let next = self.inner[j + 1];
            self.inner.set(j, next);
            j = j + 1;
        }
        self.inner.set(QUEUE_SIZE - 1, Some(event));
        proof {
            old(self).lemma_view_of(n);
            assert(filled_prefix(self.inner@, QUEUE_SIZE as int));
            self.lemma_view_of(QUEUE_SIZE as int);
            assert(self.view() =~= old(self).view().drop_first().push(event));
        }
        missed_event
    }

    /// Take every queued event, oldest first, leaving the queue empty.
    pub fn drain(&mut self) -> (r: Vec<InputEvent>)
        requires
            old(self).wf(),
        ensures
            final(self).wf(),
            r@ == old(self).view(),
            final(self).view() == Seq::<InputEvent>::empty(),
    {
        let ghost n = choose|n: int| filled_prefix(self.inner@, n);
        proof {
            self.lemma_view_of(n);
        }
        let mut out: Vec<InputEvent> = Vec::new();
        let mut i: usize = 0;
        while i < QUEUE_SIZE
            invariant
                i <= QUEUE_SIZE,
                self.inner@.len() == QUEUE_SIZE,
                filled_prefix(old(self).inner@, n),
                old(self).inner@.len() == QUEUE_SIZE,
                old(self).view().len() == n,
                forall|k: int| 0 <= k < n ==> old(self).inner@[k] == Some(#[trigger] old(self).view()[k]),
                forall|k: int| 0 <= k < i ==> self.inner@[k] is None,
                forall|k: int| i <= k < QUEUE_SIZE ==> self.inner@[k] == old(self).inner@[k],
                out@ == old(self).view().subrange(0, if i < n { i as int } else { n }),
            decreases QUEUE_SIZE - i,
        {
            let slot = self.inner[i];
            self.inner.set(i, None);
            proof {
                if i >= n {
                    assert(old(self).inner@[i as int] is None);
                }
            }
            if let Some(event) = slot {
                out.push(event);
                proof {
                    assert(old(self).inner@[i as int] is Some);
                    assert(i < n);
                    assert(old(self).inner@[i as int] == Some(old(self).view()[i as int]));
                    assert(out@ =~= old(self).view().subrange(0, i + 1));
                }
            }
        i = i + 1;
        }
        proof {
            assert(filled_prefix(self.inner@, 0));
            self.lemma_view_of(0);
            assert(out@ =~= old(self).view());
        }
        out
    }
}

/// Whether the event asks the program that reads it to quit: a press of the Q key.
pub fn is_quit_key(event: InputEvent) -> (r: bool)
    ensures
        r == (event == InputEvent::KeyPress { code: KEY_Q }),
{
    match event {
        InputEvent::KeyPress { code } => code == KEY_Q,
        _ => false,
    }
}

} // verus!

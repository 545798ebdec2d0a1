use vstd::prelude::*;

verus! {

/// Entries in the virtio rings.
pub const VIRTIO_RING_SIZE: usize = 128;
/// Events the input queue holds.
pub const EVENT_QUEUE_SIZE: usize = 128;

/// The value of a virtio device's magic register ("virt" in little-endian ASCII).
pub const VIRTIO_MAGIC: u32 = 0x7472_6976;
/// The virtio MMIO version this driver speaks.
pub const VIRTIO_VERSION: u32 = 2;
/// The virtio device id of an input device.
pub const VIRTIO_INPUT_DEVICE_ID: u32 = 18;
/// The vendor id of the devices this driver runs.
pub const VIRTIO_VENDOR_ID: u32 = 0x554d_4551;
/// Feature bit: descriptors may be laid out freely.
pub const VIRTIO_F_ANY_LAYOUT: u32 = 27;
/// Feature bit: indirect descriptors.
pub const VIRTIO_RING_F_INDIRECT_DESC: u32 = 28;
/// Feature bit: event index suppression.
pub const VIRTIO_RING_F_EVENT_IDX: u32 = 29;
/// Status bit: the guest has noticed the device.
pub const VIRTIO_CONFIG_S_ACKNOWLEDGE: u32 = 1;
/// Status bit: the guest knows how to drive the device.
pub const VIRTIO_CONFIG_S_DRIVER: u32 = 2;
/// Status bit: the driver is ready.
pub const VIRTIO_CONFIG_S_DRIVER_OK: u32 = 4;
/// Status bit: feature negotiation is complete.
pub const VIRTIO_CONFIG_S_FEATURES_OK: u32 = 8;

/// Whether the identification registers read at a virtio slot (magic value, version,
/// device id, vendor id) show an input device that this driver runs.
pub fn is_input_device(magic: u32, version: u32, device_id: u32, vendor_id: u32) -> (r: bool)
    ensures
        r == (magic == VIRTIO_MAGIC && version == VIRTIO_VERSION && device_id == VIRTIO_INPUT_DEVICE_ID
            && vendor_id == VIRTIO_VENDOR_ID),
{
    magic == VIRTIO_MAGIC && version == VIRTIO_VERSION && device_id == VIRTIO_INPUT_DEVICE_ID && vendor_id
        == VIRTIO_VENDOR_ID
}

/// The features the driver takes of those the device offers: all of them but any
/// layout, event index and indirect descriptors.
pub fn driver_features(offered: u32) -> (r: u32)
    ensures
        forall|b: u32|
            b < 32 ==> ((r >> b) & 1 == if b == VIRTIO_F_ANY_LAYOUT || b == VIRTIO_RING_F_INDIRECT_DESC || b
                == VIRTIO_RING_F_EVENT_IDX {
                0
            } else {
                (offered >> b) & 1
            }),
{
    let r = offered & !(1u32 << VIRTIO_F_ANY_LAYOUT) & !(1u32 << VIRTIO_RING_F_EVENT_IDX) & !(1u32
        << VIRTIO_RING_F_INDIRECT_DESC);
    assert(forall|b: u32|
        b < 32 ==> ((r >> b) & 1 == if b == 27 || b == 28 || b == 29 {
            0
        } else {
            (offered >> b) & 1
        })) by (bit_vector)
        requires
            r == offered & !(1u32 << 27u32) & !(1u32 << 29u32) & !(1u32 << 28u32),
    ;
    r
}

/// The values written to a device's status register while it is brought up, in order:
/// acknowledged, driver known, features accepted, driver ready. After the third the
/// driver reads the register back and goes on only if `features_accepted` holds of it.
pub fn init_status_sequence() -> (r: Vec<u32>)
    ensures
        r@ == seq![
            VIRTIO_CONFIG_S_ACKNOWLEDGE,
            VIRTIO_CONFIG_S_ACKNOWLEDGE | VIRTIO_CONFIG_S_DRIVER,
            VIRTIO_CONFIG_S_ACKNOWLEDGE | VIRTIO_CONFIG_S_DRIVER | VIRTIO_CONFIG_S_FEATURES_OK,
            VIRTIO_CONFIG_S_ACKNOWLEDGE | VIRTIO_CONFIG_S_DRIVER | VIRTIO_CONFIG_S_FEATURES_OK | VIRTIO_CONFIG_S_DRIVER_OK,
        ],
{
    let mut status: u32 = VIRTIO_CONFIG_S_ACKNOWLEDGE;
    let mut r: Vec<u32> = Vec::new();
    r.push(status);
    status = status | VIRTIO_CONFIG_S_DRIVER;
    r.push(status);
    status = status | VIRTIO_CONFIG_S_FEATURES_OK;
    r.push(status);
    status = status | VIRTIO_CONFIG_S_DRIVER_OK;
    r.push(status);
    assert((1u32 | 2u32) == 3u32 && (3u32 | 8u32) == 11u32 && (11u32 | 4u32) == 15u32) by (bit_vector);
    assert(r@ =~= seq![1u32, 3u32, 11u32, 15u32]);
    r
}

/// Whether a status read back from a device shows feature negotiation complete.
pub fn features_accepted(status: u32) -> (r: bool)
    ensures
        r == (status & VIRTIO_CONFIG_S_FEATURES_OK == VIRTIO_CONFIG_S_FEATURES_OK),
{
    status & VIRTIO_CONFIG_S_FEATURES_OK == VIRTIO_CONFIG_S_FEATURES_OK
}

/// A virtio descriptor.
pub struct Descriptor {
    pub addr: u64,
    pub len: u32,
    pub flags: u16,
    pub next: u16,
}

/// The virtio available ring.
pub struct Available {
    pub flags: u16,
    pub idx: u16,
    pub ring: [u16; 128],
    pub event: u16,
}

/// An element of the virtio used ring.
pub struct UsedElem {
    pub id: u32,
    pub len: u32,
}

/// The virtio used ring.
pub struct Used {
    pub flags: u16,
    pub idx: u16,
    pub ring: [UsedElem; 128],
    pub event: u16,
}

/// The type of a Linux input event.
#[derive(Clone, Copy, PartialEq, Eq, Structural, Debug)]
pub enum EventType {
    Syn,
    Key,
    Rel,
    Abs,
    Msc,
    Sw,
    Led,
    Snd,
    Rep,
    Ff,
    Pwr,
    FfStatus,
    Max,
}

/// The numeric code of an event type.
pub open spec fn spec_event_type_code(t: EventType) -> u16 {
    match t {
        EventType::Syn => 0x00u16,
        EventType::Key => 0x01u16,
        EventType::Rel => 0x02u16,
        EventType::Abs => 0x03u16,
        EventType::Msc => 0x04u16,
        EventType::Sw => 0x05u16,
        EventType::Led => 0x11u16,
        EventType::Snd => 0x12u16,
        EventType::Rep => 0x14u16,
        EventType::Ff => 0x15u16,
        EventType::Pwr => 0x16u16,
        EventType::FfStatus => 0x17u16,
        EventType::Max => 0x1fu16,
    }
}

/// An input event as the device delivers it.
#[derive(Clone, Copy, Debug)]
pub struct InputEvent {
    pub event_type: EventType,
    pub code: u16,
    pub value: i32,
}

/// The character a virtio key code types, if any.
pub open spec fn spec_keycode_to_char(keycode: u16) -> Option<char> {
    match keycode {
        0x02 => Some('1'),
        0x03 => Some('2'),
        0x04 => Some('3'),
        0x05 => Some('4'),
        0x06 => Some('5'),
        0x07 => Some('6'),
        0x08 => Some('7'),
        0x09 => Some('8'),
        0x0a => Some('9'),
        0x0b => Some('0'),
        0x10 => Some('q'),
        0x11 => Some('w'),
        0x12 => Some('e'),
        0x13 => Some('r'),
        0x14 => Some('t'),
        0x15 => Some('y'),
        0x16 => Some('u'),
        0x17 => Some('i'),
        0x18 => Some('o'),
        0x19 => Some('p'),
        0x1e => Some('a'),
        0x1f => Some('s'),
        0x20 => Some('d'),
        0x21 => Some('f'),
        0x22 => Some('g'),
        0x23 => Some('h'),
        0x24 => Some('j'),
        0x25 => Some('k'),
        0x26 => Some('l'),
        0x2c => Some('z'),
        0x2d => Some('x'),
        0x2e => Some('c'),
        0x2f => Some('v'),
        0x30 => Some('b'),
        0x31 => Some('n'),
        0x32 => Some('m'),
        0x39 => Some(' '),
        _ => None,
    }
}

/// The character a virtio key code types, if any.
pub fn keycode_to_char(keycode: u16) -> (r: Option<char>)
    ensures
        r == spec_keycode_to_char(keycode),
{
    match keycode {
        0x02 => Some('1'),
        0x03 => Some('2'),
        0x04 => Some('3'),
        0x05 => Some('4'),
        0x06 => Some('5'),
        0x07 => Some('6'),
        0x08 => Some('7'),
        0x09 => Some('8'),
        0x0a => Some('9'),
        0x0b => Some('0'),
        0x10 => Some('q'),
        0x11 => Some('w'),
        0x12 => Some('e'),
        0x13 => Some('r'),
        0x14 => Some('t'),
        0x15 => Some('y'),
        0x16 => Some('u'),
        0x17 => Some('i'),
        0x18 => Some('o'),
        0x19 => Some('p'),
        0x1e => Some('a'),
        0x1f => Some('s'),
        0x20 => Some('d'),
        0x21 => Some('f'),
        0x22 => Some('g'),
        0x23 => Some('h'),
        0x24 => Some('j'),
        0x25 => Some('k'),
        0x26 => Some('l'),
        0x2c => Some('z'),
        0x2d => Some('x'),
        0x2e => Some('c'),
        0x2f => Some('v'),
        0x30 => Some('b'),
        0x31 => Some('n'),
        0x32 => Some('m'),
        0x39 => Some(' '),
        _ => None,
    }
}

/// The ring buffer of events that the interrupt handler fills and readers drain.
pub struct EventQueue {
    events: Vec<InputEvent>,
    l: usize,
    r: usize,
}

impl View for EventQueue {
    type V = Seq<InputEvent>;

    /// The events waiting, oldest first.
    closed spec fn view(&self) -> Seq<InputEvent> {
        Seq::new(
            ((self.r + EVENT_QUEUE_SIZE - self.l) % (EVENT_QUEUE_SIZE as int)) as nat,
            |k: int| self.events@[(self.l + k) % (EVENT_QUEUE_SIZE as int)],
        )
    }
}

impl EventQueue {
    /// The internal invariant.
    pub closed spec fn wf(&self) -> bool {
        &&& self.events.len() == EVENT_QUEUE_SIZE
        &&& self.l < EVENT_QUEUE_SIZE
        &&& self.r < EVENT_QUEUE_SIZE
    }

    /// An empty queue.
    pub fn new() -> (q: EventQueue)
        ensures
            q.wf(),
            q@ == Seq::<InputEvent>::empty(),
    {
        let blank = InputEvent { event_type: EventType::Syn, code: 0, value: 0 };
        let q = EventQueue { events: vec![blank; EVENT_QUEUE_SIZE], l: 0, r: 0 };
        assert(q@ =~= Seq::<InputEvent>::empty());
        q
    }

    /// Records an event (what the interrupt handler does). When the queue is full the
    /// write wraps and the queue appears empty again.
    pub fn push_event(&mut self, event: InputEvent)
        requires
            old(self).wf(),
        ensures
            final(self).wf(),
            old(self)@.len() < EVENT_QUEUE_SIZE - 1 ==> final(self)@ == old(self)@.push(event),
            old(self)@.len() >= EVENT_QUEUE_SIZE - 1 ==> final(self)@.len() == 0,
    {
        let ghost old_view = self@;
        self.events.set(self.r, event);
        self.r = (self.r + 1) % EVENT_QUEUE_SIZE;
        proof {
            if old_view.len() < EVENT_QUEUE_SIZE - 1 {
                assert forall|k: int| 0 <= k < old_view.len() implies self@[k] == old_view[k] by {
                    assert((old(self).l + k) % (EVENT_QUEUE_SIZE as int) != old(self).r);
                }
                assert(self@[old_view.len() as int] == event);
                assert(self@ =~= old_view.push(event));
            }
        }
    }

    /// Takes the oldest event, if any.
    pub fn get_from_queue(&mut self) -> (r: Option<InputEvent>)
        requires
            old(self).wf(),
        ensures
            final(self).wf(),
            old(self)@.len() == 0 ==> r is None && final(self)@ == old(self)@,
            old(self)@.len() > 0 ==> r == Some(old(self)@[0]) && final(self)@ == old(self)@.drop_first(),
    {
        if self.l != self.r {
            let ghost old_view = self@;
            let res = self.events[self.l];
            self.l = (self.l + 1) % EVENT_QUEUE_SIZE;
            assert(self@ =~= old_view.drop_first());
            Some(res)
        } else {
            None
        }
    }

    /// Takes events until one that is not a synchronisation marker, and returns it.
    pub fn receive_input(&mut self) -> (r: Option<InputEvent>)
        requires
            old(self).wf(),
        ensures
            final(self).wf(),
            match r {
                Some(e) => exists|k: int|
                    0 <= k < old(self)@.len() && #[trigger] old(self)@[k] == e && e.event_type != EventType::Syn
                        && (forall|j: int| 0 <= j < k ==> old(self)@[j].event_type == EventType::Syn)
                        && final(self)@ == old(self)@.subrange(k + 1, old(self)@.len() as int),
                None => final(self)@.len() == 0 && forall|j: int|
                    0 <= j < old(self)@.len() ==> old(self)@[j].event_type == EventType::Syn,
            },
    {
        let ghost v0 = self@;
        let ghost mut taken: int = 0;
        loop
            invariant
                self.wf(),
                0 <= taken <= v0.len(),
                self@ == v0.subrange(taken, v0.len() as int),
                forall|j: int| 0 <= j < taken ==> v0[j].event_type == EventType::Syn,
                v0 == old(self)@,
            decreases self@.len(),
        {
            let ev = self.get_from_queue();
            match ev {
                Some(event) => {
                    proof {
                        assert(event == v0[taken]);
                        taken = taken + 1;
                        assert(self@ =~= v0.subrange(taken, v0.len() as int));
                    }
                    if event.event_type != EventType::Syn {
                        return Some(event);
                    }
                },
                None => {
                    return None;
                },
            }
        }
    }
}

/// The queue an event queue holds after `e` is pushed onto `q`: `e` appended, or, when
/// the ring was full, the write wraps and the queue appears empty.
pub open spec fn pushed(q: Seq<InputEvent>, e: InputEvent) -> Seq<InputEvent> {
    if q.len() < EVENT_QUEUE_SIZE - 1 {
        q.push(e)
    } else {
        Seq::empty()
    }
}

/// `q` with the events `es` pushed onto it in order.
pub open spec fn pushed_all(q: Seq<InputEvent>, es: Seq<InputEvent>) -> Seq<InputEvent>
    decreases es.len(),
{
    if es.len() == 0 {
        q
    } else {
        pushed(pushed_all(q, es.drop_last()), es.last())
    }
}

/// The driver's side of an input device's virtqueue: which event buffer each
/// descriptor points at, the available ring and its index, the next descriptor to
/// hand out, and how far the used ring has been read.
pub struct EventRing {
    pub desc_buffer: Vec<u32>,
    pub avail: Vec<u16>,
    pub avail_idx: u16,
    pub event_idx: u16,
    pub used_idx: u16,
}

/// The state of an `EventRing` as values.
pub struct EventRingV {
    pub desc_buffer: Seq<u32>,
    pub avail: Seq<u16>,
    pub avail_idx: u16,
    pub event_idx: u16,
    pub used_idx: u16,
}

impl View for EventRing {
    type V = EventRingV;

    open spec fn view(&self) -> EventRingV {
        EventRingV {
            desc_buffer: self.desc_buffer@,
            avail: self.avail@,
            avail_idx: self.avail_idx,
            event_idx: self.event_idx,
            used_idx: self.used_idx,
        }
    }
}

/// Ring sizes hold and every descriptor points at one of the event buffers.
pub open spec fn ring_ok(s: EventRingV) -> bool {
    &&& s.desc_buffer.len() == VIRTIO_RING_SIZE
    &&& s.avail.len() == VIRTIO_RING_SIZE
    &&& s.event_idx < VIRTIO_RING_SIZE
    &&& forall|i: int| 0 <= i < VIRTIO_RING_SIZE ==> #[trigger] s.desc_buffer[i] < VIRTIO_RING_SIZE
}

/// The ring after buffer `buffer` is offered to the device again: the next descriptor
/// points at it and is appended to the available ring.
pub open spec fn after_repopulate(s: EventRingV, buffer: u32) -> EventRingV {
    EventRingV {
        desc_buffer: s.desc_buffer.update(s.event_idx as int, buffer),
        avail: s.avail.update(s.avail_idx as int % VIRTIO_RING_SIZE as int, s.event_idx),
        avail_idx: ((s.avail_idx + 1) % 0x1_0000) as u16,
        event_idx: ((s.event_idx + 1) % VIRTIO_RING_SIZE as int) as u16,
        used_idx: s.used_idx,
    }
}

/// The descriptor named by the next unread used-ring element.
pub open spec fn next_used_id(s: EventRingV, used_ids: Seq<u32>) -> u32 {
    used_ids[s.used_idx as int % VIRTIO_RING_SIZE as int]
}

/// Reading one used-ring element: the event in the buffer its descriptor points at,
/// and the ring after that buffer is offered again and the element counted.
pub open spec fn take_one(s: EventRingV, used_ids: Seq<u32>, buffers: Seq<InputEvent>) -> (EventRingV, InputEvent) {
    let id = next_used_id(s, used_ids);
    let e = buffers[s.desc_buffer[id as int] as int];
    let s1 = after_repopulate(s, id);
    (EventRingV { used_idx: ((s.used_idx + 1) % 0x1_0000) as u16, ..s1 }, e)
}

/// Reading `n` used-ring elements: the ring after them and the events read, in order.
pub open spec fn take_n(s: EventRingV, used_ids: Seq<u32>, buffers: Seq<InputEvent>, n: nat) -> (EventRingV, Seq<InputEvent>)
    decreases n,
{
    if n == 0 {
        (s, Seq::empty())
    } else {
        let (s1, es) = take_n(s, used_ids, buffers, (n - 1) as nat);
        let (s2, e) = take_one(s1, used_ids, buffers);
        (s2, es.push(e))
    }
}

/// Used-ring elements the device has written that the driver has not read.
pub open spec fn unread(used_idx: u16, device_idx: u16) -> nat {
    ((device_idx - used_idx) % 0x1_0000) as nat
}

/// Counting from `start`, the index reaches `device_idx` after exactly
/// `unread(start, device_idx)` steps and not before.
proof fn lemma_unread_steps(start: u16, device_idx: u16, k: nat)
    requires
        k <= unread(start, device_idx),
    ensures
        ((start + k) % 0x1_0000 == device_idx) <==> (k == unread(start, device_idx)),
{
    let n = unread(start, device_idx);
    assert(n < 0x1_0000);
    if start as int + n as int >= 0x1_0000 {
        assert(device_idx < start);
        assert(n == device_idx - start + 0x1_0000);
    } else {
        assert(n == device_idx - start);
    }
}

/// The queue after one more event is pushed.
proof fn lemma_pushed_all_push(q: Seq<InputEvent>, es: Seq<InputEvent>, e: InputEvent)
    ensures
        pushed_all(q, es.push(e)) == pushed(pushed_all(q, es), e),
{
    assert(es.push(e).drop_last() =~= es);
}

impl EventRing {
    /// Offers event buffer `buffer` to the device again.
    pub fn repopulate_event(&mut self, buffer: u32)
        requires
            ring_ok(old(self)@),
            buffer < VIRTIO_RING_SIZE,
        ensures
            final(self)@ == after_repopulate(old(self)@, buffer),
            ring_ok(final(self)@),
    {
        let head = self.event_idx;
        self.desc_buffer.set(head as usize, buffer);
        self.event_idx = (self.event_idx + 1) % (VIRTIO_RING_SIZE as u16);
        let slot = (self.avail_idx as usize) % VIRTIO_RING_SIZE;
        self.avail.set(slot, head);
        self.avail_idx = self.avail_idx.wrapping_add(1);
        proof {
            let s = after_repopulate(old(self)@, buffer);
            assert(self@.desc_buffer =~= s.desc_buffer);
            assert(self@.avail =~= s.avail);
        }
    }

    /// What the interrupt handler does with the used ring: reads each element the device
    /// wrote since the last call (`device_idx` is the device's index; `used_ids` the
    /// ring's descriptor ids; `buffers` the events in the event buffers), pushes each
    /// event onto `queue`, and offers its buffer again.
    pub fn take_used(&mut self, queue: &mut EventQueue, device_idx: u16, used_ids: &Vec<u32>, buffers: &Vec<InputEvent>)
        requires
            ring_ok(old(self)@),
            old(queue).wf(),
            used_ids.len() == VIRTIO_RING_SIZE,
            buffers.len() == VIRTIO_RING_SIZE,
            forall|i: int| 0 <= i < VIRTIO_RING_SIZE ==> #[trigger] used_ids@[i] < VIRTIO_RING_SIZE,
        ensures
            ({
                let (s, es) = take_n(old(self)@, used_ids@, buffers@, unread(old(self).used_idx, device_idx));
                &&& final(self)@ == s
                &&& final(queue)@ == pushed_all(old(queue)@, es)
            }),
            final(self).used_idx == device_idx,
            ring_ok(final(self)@),
            final(queue).wf(),
    {
        let ghost s0 = self@;
        let ghost q0 = queue@;
        let ghost n = unread(self.used_idx, device_idx);
        let ghost mut k: nat = 0;
        while self.used_idx != device_idx
            invariant
                ring_ok(self@),
                queue.wf(),
                used_ids.len() == VIRTIO_RING_SIZE,
                buffers.len() == VIRTIO_RING_SIZE,
                forall|i: int| 0 <= i < VIRTIO_RING_SIZE ==> #[trigger] used_ids@[i] < VIRTIO_RING_SIZE,
                n == unread(s0.used_idx, device_idx),
                k <= n,
                self.used_idx == (s0.used_idx + k) % 0x1_0000,
                self@ == take_n(s0, used_ids@, buffers@, k).0,
                queue@ == pushed_all(q0, take_n(s0, used_ids@, buffers@, k).1),
            decreases n - k,
        {
            proof {
                lemma_unread_steps(s0.used_idx, device_idx, k);
            }
            let ghost before = self@;
            let ghost qb = queue@;
            let id = used_ids[(self.used_idx as usize) % VIRTIO_RING_SIZE];
            let event = buffers[self.desc_buffer[id as usize] as usize];
            queue.push_event(event);
            proof {
                assert(queue@ =~= pushed(qb, event));
            }
            self.repopulate_event(id);
            self.used_idx = self.used_idx.wrapping_add(1);
            proof {
                let es = take_n(s0, used_ids@, buffers@, k).1;
                let k1 = k + 1;
                assert(take_n(s0, used_ids@, buffers@, k1) == ({
                    let (s1, es1) = take_n(s0, used_ids@, buffers@, k);
                    let (s2, e) = take_one(s1, used_ids@, buffers@);
                    (s2, es1.push(e))
                }));
                assert(take_one(before, used_ids@, buffers@).1 == event);
                assert(self@ == take_one(before, used_ids@, buffers@).0);
                lemma_pushed_all_push(q0, es, event);
                k = k1;
            }
        }
        proof {
            lemma_unread_steps(s0.used_idx, device_idx, k);
        }
    }
}

/// The number row of a US keyboard: key codes from 0x02 type `1` to `9`, then `0`.
pub proof fn lemma_keycode_digit_row()
    ensures
        forall|i: int| 0 <= i < 10 ==> #[trigger] spec_keycode_to_char((0x02 + i) as u16) == Some(seq!['1', '2', '3', '4', '5', '6', '7', '8', '9', '0'][i]),
{
    assert forall|i: int| 0 <= i < 10 implies #[trigger] spec_keycode_to_char((0x02 + i) as u16) == Some(seq!['1', '2', '3', '4', '5', '6', '7', '8', '9', '0'][i]) by {
        assert(i == 0 || i == 1 || i == 2 || i == 3 || i == 4 || i == 5 || i == 6 || i == 7 || i == 8 || i == 9);
    }
}

/// The top letter row of a US keyboard: key codes from 0x10 type `q w e r t y u i o p`.
pub proof fn lemma_keycode_top_row()
    ensures
        forall|i: int| 0 <= i < 10 ==> #[trigger] spec_keycode_to_char((0x10 + i) as u16) == Some(seq!['q', 'w', 'e', 'r', 't', 'y', 'u', 'i', 'o', 'p'][i]),
{
    assert forall|i: int| 0 <= i < 10 implies #[trigger] spec_keycode_to_char((0x10 + i) as u16) == Some(seq!['q', 'w', 'e', 'r', 't', 'y', 'u', 'i', 'o', 'p'][i]) by {
        assert(i == 0 || i == 1 || i == 2 || i == 3 || i == 4 || i == 5 || i == 6 || i == 7 || i == 8 || i == 9);
    }
}

/// The home row of a US keyboard: key codes from 0x1e type `a s d f g h j k l`.
pub proof fn lemma_keycode_home_row()
    ensures
        forall|i: int| 0 <= i < 9 ==> #[trigger] spec_keycode_to_char((0x1e + i) as u16) == Some(seq!['a', 's', 'd', 'f', 'g', 'h', 'j', 'k', 'l'][i]),
{
    assert forall|i: int| 0 <= i < 9 implies #[trigger] spec_keycode_to_char((0x1e + i) as u16) == Some(seq!['a', 's', 'd', 'f', 'g', 'h', 'j', 'k', 'l'][i]) by {
        assert(i == 0 || i == 1 || i == 2 || i == 3 || i == 4 || i == 5 || i == 6 || i == 7 || i == 8);
    }
}

/// The bottom letter row of a US keyboard: key codes from 0x2c type `z x c v b n m`.
pub proof fn lemma_keycode_bottom_row()
    ensures
        forall|i: int| 0 <= i < 7 ==> #[trigger] spec_keycode_to_char((0x2c + i) as u16) == Some(seq!['z', 'x', 'c', 'v', 'b', 'n', 'm'][i]),
{
    assert forall|i: int| 0 <= i < 7 implies #[trigger] spec_keycode_to_char((0x2c + i) as u16) == Some(seq!['z', 'x', 'c', 'v', 'b', 'n', 'm'][i]) by {
        assert(i == 0 || i == 1 || i == 2 || i == 3 || i == 4 || i == 5 || i == 6);
    }
}

/// No two key codes type the same character.
pub proof fn lemma_keycode_to_char_injective(a: u16, b: u16)
    requires
        spec_keycode_to_char(a) is Some,
        spec_keycode_to_char(a) == spec_keycode_to_char(b),
    ensures
        a == b,
{
}

/// A key of the PS/2 keyboard and the virtio key code of the same number type the
/// same character, for the letter keys, the digit keys and space.
pub proof fn lemma_keycodes_match_scan_codes(k: crate::keyboard::Key)
    requires
        crate::keyboard::spec_key_to_char(k) matches Some(c) && (('a' <= c <= 'z') || ('0' <= c <= '9') || c == ' '),
    ensures
        spec_keycode_to_char(crate::keyboard::spec_key_code(k) as u16) == crate::keyboard::spec_key_to_char(k),
{
}

/// Event types have distinct codes, all at most `Max`'s (0x1f).
pub proof fn lemma_event_type_codes(a: EventType, b: EventType)
    ensures
        spec_event_type_code(a) == spec_event_type_code(b) ==> a == b,
        spec_event_type_code(a) <= spec_event_type_code(EventType::Max),
{
}

} // verus!

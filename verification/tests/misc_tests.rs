use kernel_core::rand::{advance, Rng};
use kernel_core::keyboard::{key_code, key_to_char, scancode_to_key, Key, KeyQueue};
use kernel_core::input::{EventRing, driver_features, features_accepted, init_status_sequence, is_input_device, keycode_to_char, EventQueue, EventType, InputEvent};
use kernel_core::interrupts::{create_options, handler_entry, IDTEntry};
use kernel_core::trap::{decode_syscall, get_interrupt_type, InterruptType, Syscall};
use kernel_core::gdt::{build_gdt, create_128_segment_descriptor, create_segment_descriptor, create_tss, GlobalDescriptorTable};

#[test]
fn rng_advance_matches_wrapping_formula() {
    let x = 12345u64;
    assert_eq!(advance(x), x.wrapping_mul(6364136223846793005).wrapping_add(1442695040888963407));
    let mut rng = Rng::new(7);
    for _ in 0..1000 {
        let v = rng.get(10, 20);
        assert!((10..20).contains(&v));
    }
    let mut a = Rng::new(99);
    let mut b = Rng::new(99);
    assert_eq!(a.get(0, 1000), b.get(0, 1000));
}

#[test]
fn keyboard_scancodes() {
    assert!(scancode_to_key(0x1E) == Key::A);
    assert!(scancode_to_key(0x0B) == Key::Num0);
    assert!(scancode_to_key(0x1C) == Key::Enter);
    assert!(scancode_to_key(0x7F) == Key::Unknown);
    for code in 0u8..128 {
        let k = scancode_to_key(code);
        if k != Key::Unknown {
            assert_eq!(key_code(k), code);
        }
    }
    assert_eq!(key_to_char(Key::A), Some('a'));
    assert_eq!(key_to_char(Key::LeftBracket), Some(']'));
    assert_eq!(key_to_char(Key::Quote), Some('\''));
    assert_eq!(key_to_char(Key::Backslash), Some('\\'));
    assert_eq!(key_to_char(Key::Enter), None);
}

#[test]
fn keyboard_queue_decodes_release_bit() {
    let mut q = KeyQueue::new();
    assert!(q.get_key_event().is_none());
    q.push(0x1E);
    q.push(0x9E);
    let (k, up) = q.get_key_event().unwrap();
    assert!(k == Key::A && !up);
    let (k, up) = q.get_key_event().unwrap();
    assert!(k == Key::A && up);
    assert!(q.get_key_event().is_none());
}

#[test]
fn input_keycodes_and_queue() {
    assert_eq!(keycode_to_char(0x02), Some('1'));
    assert_eq!(keycode_to_char(0x39), Some(' '));
    assert_eq!(keycode_to_char(0x1c), None);
    let mut q = EventQueue::new();
    assert!(q.receive_input().is_none());
    q.push_event(InputEvent { event_type: EventType::Syn, code: 0, value: 0 });
    q.push_event(InputEvent { event_type: EventType::Key, code: 30, value: 1 });
    q.push_event(InputEvent { event_type: EventType::Key, code: 31, value: 0 });
    let e = q.receive_input().unwrap();
    assert_eq!(e.code, 30);
    let e = q.get_from_queue().unwrap();
    assert_eq!(e.code, 31);
    assert!(q.get_from_queue().is_none());
}

#[test]
fn idt_gate_bits() {
    assert_eq!(create_options(true, false), 0x8e00);
    assert_eq!(create_options(false, true), 0x0f00);
    assert_eq!(create_options(true, true), 0x8f00);
    let e = IDTEntry::new(0x1234_5678_9abc_def0, 8, 0x8e00);
    assert_eq!(e.pointer_low, 0xdef0);
    assert_eq!(e.pointer_middle, 0x9abc);
    assert_eq!(e.pointer_high, 0x1234_5678);
    let h = handler_entry(0x4000);
    assert_eq!(h.selector, 8);
    assert_eq!(h.options, 0x8e00);
}

#[test]
fn trap_causes_and_syscalls() {
    assert!(get_interrupt_type(0x8000_0000_0000_0009) == InterruptType::OtherDevice);
    assert!(get_interrupt_type(0x8000_0000_0000_0109) == InterruptType::OtherDevice);
    assert!(get_interrupt_type(0x8000_0000_0000_0001) == InterruptType::Timer);
    assert!(get_interrupt_type(8) == InterruptType::User);
    assert!(get_interrupt_type(9) == InterruptType::Unknown);
    assert!(decode_syscall(1) == Syscall::PrintStr);
    assert!(decode_syscall(7) == Syscall::Sleep);
    assert!(decode_syscall(0) == Syscall::Unknown);
}

#[test]
fn gdt_descriptors() {
    let d = create_segment_descriptor(0x1234_5678, 0xABCDE, 0x9B, 0xA);
    assert_eq!(d.base_low, 0x5678);
    assert_eq!(d.base_mid, 0x34);
    assert_eq!(d.base_high, 0x12);
    assert_eq!(d.limit_low, 0xBCDE);
    assert_eq!(d.lim_h_flags, 0xAA);
    assert_eq!(d.access_byte, 0x9B);
    let (lo, hi) = create_128_segment_descriptor(0xFFEE_DDCC_1122_3344, 103, 0x89, 0);
    assert_eq!(lo.base_low, 0x3344);
    assert_eq!(hi.limit_low, 0xDDCC);
    assert_eq!(hi.base_low, 0xFFEE);
    let g = build_gdt(0x5000);
    let p = g.create_pointer(0x9000);
    assert_eq!(p.limit, 63);
    assert_eq!(p.base, 0x9000);
    let mut t = GlobalDescriptorTable::new();
    t.append(d);
    let tss = create_tss([0x1000, 0x20000, 0x40000]);
    assert_eq!(tss.interrupt_stack_table[0], 0x1000 + 4096 * 5);
    assert_eq!(tss.interrupt_stack_table[3], 0);
    assert_eq!(tss.io_map_base_address, 104);
}

#[test]
fn virtio_input_device_checks() {
    assert!(is_input_device(0x7472_6976, 2, 18, 0x554d_4551));
    assert!(!is_input_device(0x7472_6976, 1, 18, 0x554d_4551));
    assert!(!is_input_device(0x7472_6976, 2, 2, 0x554d_4551));
    assert!(!is_input_device(0, 2, 18, 0x554d_4551));
    assert!(!is_input_device(0x7472_6976, 2, 18, 0));
    assert_eq!(driver_features(0xffff_ffff), 0xc7ff_ffff);
    assert_eq!(driver_features(0x0800_0001), 0x0000_0001);
    assert_eq!(driver_features(0x4000_0000), 0x4000_0000);
    assert_eq!(init_status_sequence(), vec![1, 3, 11, 15]);
    assert!(features_accepted(11));
    assert!(!features_accepted(3));
}

#[test]
fn used_ring_events_reach_the_queue() {
    let mut ring = EventRing {
        desc_buffer: (0..128u32).collect(),
        avail: vec![0u16; 128],
        avail_idx: 0,
        event_idx: 0,
        used_idx: 0,
    };
    let buffers: Vec<InputEvent> =
        (0..128u16).map(|i| InputEvent { event_type: EventType::Key, code: i, value: 1 }).collect();
    let mut used_ids = vec![0u32; 128];
    used_ids[0] = 5;
    used_ids[1] = 7;
    let mut queue = EventQueue::new();
    ring.take_used(&mut queue, 2, &used_ids, &buffers);
    assert_eq!(queue.get_from_queue().map(|e| e.code), Some(5));
    assert_eq!(queue.get_from_queue().map(|e| e.code), Some(7));
    assert!(queue.get_from_queue().is_none());
    assert_eq!(ring.used_idx, 2);
    assert_eq!(ring.avail_idx, 2);
    assert_eq!(ring.event_idx, 2);
    assert_eq!(&ring.avail[..2], &[0, 1]);
    assert_eq!(&ring.desc_buffer[..2], &[5, 7]);
    ring.take_used(&mut queue, 2, &used_ids, &buffers);
    assert!(queue.get_from_queue().is_none());
    assert_eq!(ring.used_idx, 2);
}

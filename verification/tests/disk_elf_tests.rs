use kernel_core::disk::ata::{probe_positions, probe_select_byte};
use kernel_core::disk::ata::{data_pending, transfer_command, transfer_status, TransferStatus, ATA_READ, ATA_WRITE};
use kernel_core::disk::ata::{wait_for_disk, DiskWait};
use kernel_core::disk::ata::{PortAction, PortEvent, SectorTransfer, TransferStage};
use kernel_core::disk::ata::{DriveProbe, ProbeAction, ProbeEvent, ProbeStage};
use kernel_core::disk::ata::{disk_size_from_registers, get_disk_status, is_drive_present, is_root_disk, sector_magic, sector_select_bytes, sector_to_words, words_to_sector, Disk};
use kernel_core::le::read_le;
use kernel_core::elf::{read_program, segment_pages, verify_elf_header, ElfProgramHeader};

#[test]
fn ata_helpers() {
    assert_eq!(sector_select_bytes(1, 0x0123_4567), [0x67, 0x45, 0x23, 0xF1]);
    assert_eq!(sector_select_bytes(0, 5), [5, 0, 0, 0xE0]);
    assert_eq!(disk_size_from_registers(0x10, 0x27, 0, 0xF0), 0x2710);
    assert_eq!(get_disk_status(0x51), None);
    assert_eq!(get_disk_status(0x50), Some(0x50));
    assert!(is_drive_present(0x50));
    assert!(is_drive_present(0xD0));
    assert!(!is_drive_present(0x51));
    let words: Vec<u16> = (0..256).map(|i| (i * 257) as u16).collect();
    let sector = words_to_sector(&words);
    assert_eq!(sector[2], 1);
    assert_eq!(sector[3], 1);
    assert_eq!(sector_to_words(&sector), words);
    let mut first = [0u8; 512];
    first[508] = 0x63;
    first[509] = 0x72;
    first[510] = 0x65;
    first[511] = 0x91;
    assert_eq!(sector_magic(&first), 0x63726591);
    assert!(is_root_disk(&first));
    assert_eq!(Disk::new(0x1F0, 0, vec![[0u8; 512]; 10]).size(), 10);
}

fn sample_program() -> Vec<u8> {
    let mut p = vec![0u8; 64 + 56];
    p[0..4].copy_from_slice(&[0x7f, 0x45, 0x4c, 0x46]);
    p[4] = 2;
    p[5] = 1;
    p[6] = 1;
    p[16] = 2;
    p[18] = 0xf3;
    p[20] = 1;
    p[24..32].copy_from_slice(&0x1_0000_1000u64.to_le_bytes());
    p[32..40].copy_from_slice(&64u64.to_le_bytes());
    p[56] = 1;
    p[64] = 1;
    p[64 + 16..64 + 24].copy_from_slice(&0x1_0000_0800u64.to_le_bytes());
    p[64 + 32..64 + 40].copy_from_slice(&0x100u64.to_le_bytes());
    p[64 + 40..64 + 48].copy_from_slice(&0x1000u64.to_le_bytes());
    p
}

#[test]
fn elf_reading() {
    let p = sample_program();
    assert_eq!(read_le(&p, 24, 8), 0x1_0000_1000);
    let (h, phs) = read_program(&p).unwrap();
    assert!(verify_elf_header(&h));
    assert_eq!(h.entry, 0x1_0000_1000);
    assert_eq!(phs.len(), 1);
    assert_eq!(phs[0].p_type, 1);
    assert_eq!(phs[0].vaddr, 0x1_0000_0800);
    assert_eq!(segment_pages(&phs[0]), (0x100000, 0x100002));
    let mut bad = p.clone();
    bad[18] = 0x3e;
    assert!(read_program(&bad).is_none());
    assert!(read_program(&p[..100].to_vec()).is_none());
    let ph = ElfProgramHeader { p_type: 1, flags: 0, offset: 0, vaddr: 4096, paddr: 0, file_size: 0, memory_size: 4096, align: 0 };
    assert_eq!(segment_pages(&ph), (1, 2));
}

#[test]
fn root_disk_is_found_by_magic() {
    let plain = Disk::new(0x1F0, 0, vec![[0u8; 512]; 4]);
    let mut root_sectors = vec![[0u8; 512]; 4];
    root_sectors[0][508..512].copy_from_slice(&[0x63, 0x72, 0x65, 0x91]);
    root_sectors[1][0] = 9;
    let root = Disk::new(0x170, 1, root_sectors);
    let disks = vec![plain, root];
    let found = kernel_core::disk::ata::find_root_disk(&disks);
    assert_eq!(found.base, 0x170);
    assert_eq!(found.h, 1);
    assert_eq!(found.read(1)[0], 9);
}

#[test]
fn waiting_for_a_drive() {
    assert_eq!(wait_for_disk(Some(0x50), 100, 100), DiskWait::Ready);
    assert_eq!(wait_for_disk(Some(0x80), 100, 110), DiskWait::Waiting);
    assert_eq!(wait_for_disk(Some(0x80), 100, 111), DiskWait::Failed);
    assert_eq!(wait_for_disk(None, 100, 100), DiskWait::Failed);
}

#[test]
fn ata_transfer_protocol() {
    assert_eq!(
        transfer_command(1, 0x0123_4567, ATA_READ),
        vec![(2, 1), (3, 0x67), (4, 0x45), (5, 0x23), (6, 0xF1), (7, 0x20)]
    );
    assert_eq!(transfer_command(0, 5, ATA_WRITE)[5], (7, 0x30));
    assert!(data_pending(0x58));
    assert!(!data_pending(0x50));
    assert_eq!(transfer_status(Some(0x58), false), TransferStatus::Ready);
    assert_eq!(transfer_status(Some(0xD0), false), TransferStatus::Busy);
    assert_eq!(transfer_status(Some(0x70), false), TransferStatus::Failed);
    assert_eq!(transfer_status(Some(0x51), false), TransferStatus::Busy);
    assert_eq!(transfer_status(Some(0x51), true), TransferStatus::Failed);
    assert_eq!(transfer_status(None, false), TransferStatus::Failed);
}

#[test]
fn drive_probe_order() {
    let p = probe_positions();
    assert_eq!(p.len(), 16);
    assert_eq!(p[0], (0x1F0, 0));
    assert_eq!(p[1], (0x1F0, 1));
    assert_eq!(p[4], (0x170, 0));
    assert_eq!(p[15], (0x360, 1));
    assert_eq!(probe_select_byte(1), 0xB0);
}

/// Runs a transfer against a drive that answers every status read with the next of
/// `statuses`, and with `words` when asked for data; gives back the register writes,
/// the words written, whether it finished, and the transfer.
fn run_transfer(
    mut t: SectorTransfer,
    statuses: &[Option<u8>],
    words: &[u16],
) -> (Vec<(u16, u8)>, Vec<u16>, bool, SectorTransfer) {
    let mut registers = Vec::new();
    let mut written = Vec::new();
    let mut next_status = 0;
    let mut tick = 0u64;
    let mut event = PortEvent::Status(statuses[0], tick);
    next_status += 1;
    loop {
        match t.step(event) {
            PortAction::ReadStatus | PortAction::WriteRegisters(_) if next_status >= statuses.len() => {
                return (registers, written, false, t);
            }
            PortAction::ReadStatus => {
                tick += 1;
                event = PortEvent::Status(statuses[next_status], tick);
                next_status += 1;
            }
            PortAction::WriteRegisters(c) => {
                registers.extend(c);
                tick += 1;
                event = PortEvent::Status(statuses[next_status], tick);
                next_status += 1;
            }
            PortAction::ReadWords => event = PortEvent::Words(words.to_vec()),
            PortAction::WriteWords(w) => {
                written = w;
                event = PortEvent::Written;
            }
            PortAction::Finished => return (registers, written, true, t),
            PortAction::Fail => return (registers, written, false, t),
        }
    }
}

#[test]
fn sector_transfer_reads_a_sector() {
    let words: Vec<u16> = (0..256u16).map(|i| i * 3).collect();
    let t = SectorTransfer::new(1, 0x0123_4567, false, [0u8; 512]);
    let statuses = [Some(0x40), Some(0xC0), Some(0x40), Some(0x80), Some(0x48), Some(0x40)];
    let (registers, _, finished, t) = run_transfer(t, &statuses, &words);
    assert!(finished);
    assert_eq!(t.stage, TransferStage::Done);
    assert_eq!(registers, vec![(2, 1), (3, 0x67), (4, 0x45), (5, 0x23), (6, 0xF1), (7, ATA_READ)]);
    assert_eq!(t.data[0], 0);
    assert_eq!(t.data[2], 3);
    assert_eq!(t.data[2 * 200], (600u16 & 0xff) as u8);
    assert_eq!(t.data[2 * 200 + 1], (600u16 >> 8) as u8);
}

#[test]
fn sector_transfer_writes_a_sector() {
    let mut data = [0u8; 512];
    data[0] = 0x34;
    data[1] = 0x12;
    data[511] = 0xAB;
    let t = SectorTransfer::new(0, 5, true, data);
    let statuses = [Some(0x40), Some(0x40), Some(0x48), Some(0x40)];
    let (registers, written, finished, _) = run_transfer(t, &statuses, &[]);
    assert!(finished);
    assert_eq!(registers, vec![(2, 1), (3, 5), (4, 0), (5, 0), (6, 0xE0), (7, ATA_WRITE)]);
    assert_eq!(written.len(), 256);
    assert_eq!(written[0], 0x1234);
    assert_eq!(written[255], 0xAB00);
}

#[test]
fn sector_transfer_failures() {
    let words = vec![0u16; 256];
    let pending = SectorTransfer::new(0, 1, false, [0u8; 512]);
    let (registers, _, finished, t) = run_transfer(pending, &[Some(0x48)], &words);
    assert!(!finished && registers.is_empty());
    assert_eq!(t.stage, TransferStage::Failed);
    let timeout = SectorTransfer::new(0, 1, false, [0u8; 512]);
    let busy = [Some(0x40); 1].iter().chain([Some(0x80); 20].iter()).cloned().collect::<Vec<_>>();
    let (registers, _, finished, t) = run_transfer(timeout, &busy, &words);
    assert!(!finished && registers.is_empty());
    assert_eq!(t.stage, TransferStage::Failed);
    let fault = SectorTransfer::new(0, 1, false, [0u8; 512]);
    let (_, _, finished, t) = run_transfer(fault, &[Some(0x40), Some(0x40), Some(0x60)], &words);
    assert!(!finished);
    assert_eq!(t.stage, TransferStage::Failed);
    let write_error = SectorTransfer::new(0, 1, true, [0u8; 512]);
    let (_, written, finished, _) = run_transfer(write_error, &[Some(0x40), Some(0x40), Some(0x41)], &words);
    assert!(!finished && written.is_empty());
    let read_ignores_error_bit = SectorTransfer::new(0, 1, false, [0u8; 512]);
    let (_, _, finished, _) =
        run_transfer(read_ignores_error_bit, &[Some(0x40), Some(0x40), Some(0x41), Some(0x48), Some(0x40)], &words);
    assert!(finished);
    let lost = SectorTransfer::new(0, 1, false, [0u8; 512]);
    let (_, _, finished, _) = run_transfer(lost, &[Some(0x40), Some(0x40), Some(0x48), None], &words);
    assert!(!finished);
}

/// Probes simulated channels: a drive answers at each `(base, h, size)` of `drives`,
/// ready at once; every other position reads a status of zero.
fn run_probe(drives: &[(u16, u8, usize)]) -> DriveProbe {
    let (mut probe, mut action) = DriveProbe::new();
    let mut selected: Option<(u16, u8)> = None;
    let mut tick = 0u64;
    loop {
        tick += 1;
        let event = match action {
            ProbeAction::Finished => return probe,
            ProbeAction::WriteThenStatus { base, register, value } => {
                if register == 6 && value & 0xEF == 0xA0 {
                    selected = Some((base, (value >> 4) & 1));
                }
                let here = drives.iter().any(|d| Some((d.0, d.1)) == selected);
                ProbeEvent::Status(Some(if here { 0x50 } else { 0 }), tick)
            }
            ProbeAction::ReadStatus { .. } => ProbeEvent::Status(Some(0x50), tick),
            ProbeAction::ReadSize { .. } => {
                let d = drives.iter().find(|d| Some((d.0, d.1)) == selected).unwrap();
                let n = d.2;
                ProbeEvent::Size(n as u8, (n >> 8) as u8, (n >> 16) as u8, 0xE0 | ((n >> 24) as u8 & 0xF))
            }
        };
        action = probe.step(event);
    }
}

#[test]
fn probing_finds_the_drives_in_order() {
    let probe = run_probe(&[(0x170, 1, 0x0123_4567), (0x1F0, 0, 64)]);
    assert_eq!(probe.stage, ProbeStage::Done);
    assert_eq!(probe.found, vec![(0x1F0, 0, 64), (0x170, 1, 0x0123_4567)]);
    let none = run_probe(&[]);
    assert!(none.found.is_empty());
}

#[test]
fn probing_passes_over_failing_drives() {
    let (mut probe, action) = DriveProbe::new();
    assert_eq!(action, ProbeAction::WriteThenStatus { base: 0x1F0, register: 6, value: 0xA0 });
    let a = probe.step(ProbeEvent::Status(Some(0x50), 0));
    assert_eq!(a, ProbeAction::WriteThenStatus { base: 0x1F0, register: 6, value: 0x40 });
    let a = probe.step(ProbeEvent::Status(None, 1));
    assert_eq!(a, ProbeAction::WriteThenStatus { base: 0x1F0, register: 6, value: 0xB0 });
    let a = probe.step(ProbeEvent::Status(Some(0x50), 2));
    assert_eq!(a, ProbeAction::WriteThenStatus { base: 0x1F0, register: 6, value: 0x50 });
    let a = probe.step(ProbeEvent::Status(Some(0x00), 3));
    assert_eq!(a, ProbeAction::ReadStatus { base: 0x1F0 });
    let a = probe.step(ProbeEvent::Status(Some(0x40), 4));
    assert_eq!(a, ProbeAction::WriteThenStatus { base: 0x1F0, register: 7, value: 0xF8 });
    let a = probe.step(ProbeEvent::Status(Some(0x80), 5));
    assert_eq!(a, ProbeAction::ReadStatus { base: 0x1F0 });
    let a = probe.step(ProbeEvent::Status(Some(0x80), 20));
    assert_eq!(a, ProbeAction::WriteThenStatus { base: 0x3F0, register: 6, value: 0xA0 });
    assert!(probe.found.is_empty());
    assert_eq!(probe.index, 2);
}

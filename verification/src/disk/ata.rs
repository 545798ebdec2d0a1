use vstd::prelude::*;

verus! {

/// Bytes in a sector.
pub const SECTOR_SIZE: usize = 512;
/// Magic number at the end of sector 0 of the root disk.
pub const ROOT_MAGIC: u32 = 0x63726591;

/// Sectors a drive can address with 28-bit LBA.
pub const MAX_SECTORS: usize = 0x1000_0000;

/// An ATA drive: the I/O port base of its channel, master (0) or slave (1), and
/// what its sectors hold.
pub struct Disk {
    pub base: u16,
    pub h: u8,
    pub sectors: Vec<[u8; 512]>,
}

/// The contents of a sector.
pub open spec fn sector_view(s: [u8; 512]) -> Seq<u8> {
    s@
}

impl View for Disk {
    type V = Seq<Seq<u8>>;

    /// The contents of the sectors, in order.
    open spec fn view(&self) -> Seq<Seq<u8>> {
        self.sectors@.map_values(|s: [u8; 512]| sector_view(s))
    }
}

impl Clone for Disk {
    /// The same drive, with the same contents.
    fn clone(&self) -> (r: Disk)
        ensures
            r.base == self.base,
            r.h == self.h,
            r@ == self@,
    {
        let mut sectors: Vec<[u8; 512]> = Vec::new();
        let mut i: usize = 0;
        while i < self.sectors.len()
            invariant
                i <= self.sectors.len(),
                sectors@ == self.sectors@.subrange(0, i as int),
            decreases self.sectors.len() - i,
        {
            sectors.push(self.sectors[i]);
            i = i + 1;
        }
        assert(sectors@ =~= self.sectors@);
        Disk { base: self.base, h: self.h, sectors }
    }
}

impl Disk {
    /// The drive on channel `base`, position `h`, holding `sectors`.
    pub fn new(base: u16, h: u8, sectors: Vec<[u8; 512]>) -> (r: Disk)
        ensures
            r.base == base,
            r.h == h,
            r.sectors@ == sectors@,
    {
        Disk { base, h, sectors }
    }

    /// Number of sectors.
    pub fn size(&self) -> (r: usize)
        ensures
            r == self@.len(),
    {
        self.sectors.len()
    }

    /// The contents of sector `sector`.
    pub fn read(&self, sector: i32) -> (r: [u8; 512])
        requires
            0 <= sector < self@.len(),
        ensures
            r@ == self@[sector as int],
    {
        self.sectors[sector as usize]
    }

    /// Writes `data` to sector `sector`.
    pub fn write(&mut self, sector: i32, data: &[u8; 512])
        requires
            0 <= sector < old(self)@.len(),
        ensures
            final(self).base == old(self).base,
            final(self).h == old(self).h,
            final(self)@ == old(self)@.update(sector as int, data@),
    {
        self.sectors.set(sector as usize, *data);
        assert(self@ =~= old(self)@.update(sector as int, data@));
    }
}

/// The four bytes that select `sector` (28-bit LBA) on drive `h`: the three low bytes
/// of the address, then its top nibble with the LBA and drive bits.
pub fn sector_select_bytes(h: u8, sector: i32) -> (r: [u8; 4])
    requires
        0 <= sector,
        h <= 1,
    ensures
        r[0] + r[1] * 0x100 + r[2] * 0x1_0000 + (r[3] % 16) * 0x100_0000 == sector % 0x1000_0000,
        r[3] / 16 == 0xE + h,
{
    let b0 = (sector & 0xFF) as u8;
    let b1 = ((sector >> 8u32) & 0xFF) as u8;
    let b2 = ((sector >> 16u32) & 0xFF) as u8;
    let b3 = ((sector >> 24u32) & 0x0F) as u8 | 0xE0u8 | (h << 4u8);
    assert(b0 as int + b1 as int * 0x100 + b2 as int * 0x1_0000 + (b3 % 16) as int * 0x100_0000 == sector as int
        % 0x1000_0000 && b3 / 16 == 0xE + h) by (bit_vector)
        requires
            0 <= sector,
            h <= 1,
            b0 == (sector & 0xFF) as u8,
            b1 == ((sector >> 8u32) & 0xFF) as u8,
            b2 == ((sector >> 16u32) & 0xFF) as u8,
            b3 == ((sector >> 24u32) & 0x0F) as u8 | 0xE0u8 | (h << 4u8),
    ;
    [b0, b1, b2, b3]
}

/// The sector count a drive reports in its address registers.
pub fn disk_size_from_registers(r1: u8, r2: u8, r3: u8, r4: u8) -> (r: usize)
    ensures
        r == r1 + r2 * 0x100 + r3 * 0x1_0000 + (r4 % 16) * 0x100_0000,
{
    let low4 = r4 & 0xFu8;
    assert(low4 == r4 % 16) by (bit_vector)
        requires
            low4 == r4 & 0xFu8,
    ;
    r1 as usize + (r2 as usize) * 0x100 + (r3 as usize) * 0x1_0000 + (low4 as usize) * 0x100_0000
}

/// The status byte when its error bit is clear.
pub fn get_disk_status(status: u8) -> (r: Option<u8>)
    ensures
        r == (if status % 2 == 1 { None } else { Some(status) }),
{
    let err = status & 1u8;
    assert(err == status % 2) by (bit_vector)
        requires
            err == status & 1u8,
    ;
    if err == 1 {
        None
    } else {
        Some(status)
    }
}

/// A drive answers at this position: ready and seek complete, without busy, fault,
/// or error bits.
pub fn is_drive_present(status: u8) -> (r: bool)
    ensures
        r == (status & 0b1110001u8 == 0b1010000u8),
{
    (status & 0b1110001u8) == 0b1010000u8
}

/// The drive has finished with its busy state.
pub fn is_not_busy(status: u8) -> (r: bool)
    ensures
        r == (status & 0b1000_0000u8 == 0),
{
    (status & 0b1000_0000u8) == 0
}

/// The 512 bytes of a sector made from the 256 data words the drive sends, low byte first.
pub fn words_to_sector(words: &Vec<u16>) -> (r: [u8; 512])
    requires
        words.len() == 256,
    ensures
        forall|i: int| 0 <= i < 256 ==> r[2 * i] + r[2 * i + 1] * 256 == #[trigger] words@[i],
{
    let mut data = [0u8; 512];
    let mut i: usize = 0;
    while i < 256
        invariant
            i <= 256,
            words.len() == 256,
            forall|k: int| 0 <= k < i ==> data[2 * k] + data[2 * k + 1] * 256 == #[trigger] words@[k],
        decreases 256 - i,
    {
        let word = words[i];
        let lo = (word & 0xFFu16) as u8;
        let hi = ((word >> 8u16) & 0xFFu16) as u8;
        assert(lo as int + hi as int * 256 == word as int) by (bit_vector)
            requires
                lo == (word & 0xFFu16) as u8,
                hi == ((word >> 8u16) & 0xFFu16) as u8,
        ;
        data[2 * i] = lo;
        data[2 * i + 1] = hi;
        i = i + 1;
    }
    data
}

/// The 256 data words to send for a sector, low byte first.
pub fn sector_to_words(data: &[u8; 512]) -> (r: Vec<u16>)
    ensures
        r.len() == 256,
        forall|i: int| 0 <= i < 256 ==> #[trigger] r@[i] == data[2 * i] + data[2 * i + 1] * 256,
{
    let mut words: Vec<u16> = Vec::new();
    let mut i: usize = 0;
    while i < 256
        invariant
            i <= 256,
            words.len() == i,
            forall|k: int| 0 <= k < i ==> #[trigger] words@[k] == data[2 * k] + data[2 * k + 1] * 256,
        decreases 256 - i,
    {
        let lo = data[2 * i];
        let hi = data[2 * i + 1];
        let sh = (hi as u16) << 8u16;
        assert(sh == hi as int * 256) by (bit_vector)
            requires
                sh == (hi as u16) << 8u16,
        ;
        let word = lo as u16 + sh;
        words.push(word);
        i = i + 1;
    }
    words
}

/// The magic number at the end of a first sector: its last four bytes, last byte lowest.
pub open spec fn spec_sector_magic(s: Seq<u8>) -> int {
    s[511] + s[510] * 0x100 + s[509] * 0x1_0000 + s[508] * 0x100_0000
}

/// The magic number at the end of a first sector.
pub fn sector_magic(first_sector: &[u8; 512]) -> (r: u32)
    ensures
        r == spec_sector_magic(first_sector@),
{
    let mut magic: u32 = 0;
    let mut mult: u32 = 1;
    let mut i: usize = 0;
    while i < 4
        invariant
            i <= 4,
            mult == (if i == 0 { 1int } else if i == 1 { 0x100int } else if i == 2 { 0x1_0000int } else if i == 3 { 0x100_0000int } else { 0x1_0000_0000int }) || i == 4,
            i < 4 ==> mult == (if i == 0 { 1int } else if i == 1 { 0x100int } else if i == 2 { 0x1_0000int } else { 0x100_0000int }),
            magic == (if i == 0 { 0int } else if i == 1 { first_sector@[511] as int } else if i == 2 {
                first_sector@[511] + first_sector@[510] * 0x100
            } else if i == 3 {
                first_sector@[511] + first_sector@[510] * 0x100 + first_sector@[509] * 0x1_0000
            } else {
                spec_sector_magic(first_sector@)
            }),
        decreases 4 - i,
    {
        magic = magic + (first_sector[511 - i] as u32) * mult;
        if i < 3 {
            mult = mult * 256;
        }
        i = i + 1;
    }
    magic
}

/// Whether `first_sector` is the first sector of the root disk.
pub fn is_root_disk(first_sector: &[u8; 512]) -> (r: bool)
    ensures
        r == (spec_sector_magic(first_sector@) == ROOT_MAGIC),
{
    sector_magic(first_sector) == ROOT_MAGIC
}

/// The disk is not empty and its first sector ends with the root magic number.
pub open spec fn holds_root(d: Seq<Seq<u8>>) -> bool {
    d.len() > 0 && spec_sector_magic(d[0]) == ROOT_MAGIC
}

/// The first of `disks` whose first sector carries the root magic number.
pub fn find_root_disk(disks: &Vec<Disk>) -> (r: Disk)
    requires
        exists|i: int| 0 <= i < disks.len() && #[trigger] holds_root(disks[i]@),
    ensures
        exists|i: int|
            0 <= i < disks.len() && holds_root(disks[i]@) && r@ == disks[i]@ && r.base == disks[i].base && r.h
                == disks[i].h && forall|j: int| 0 <= j < i ==> !#[trigger] holds_root(disks[j]@),
{
    let mut k: usize = 0;
    while k < disks.len()
        invariant
            k <= disks.len(),
            forall|j: int| 0 <= j < k ==> !#[trigger] holds_root(disks[j]@),
            exists|i: int| 0 <= i < disks.len() && #[trigger] holds_root(disks[i]@),
        decreases disks.len() - k,
    {
        let d = &disks[k];
        if d.size() > 0 {
            let first = d.read(0);
            if is_root_disk(&first) {
                return d.clone();
            }
        }
        k = k + 1;
    }
    proof {
        let i = choose|i: int| 0 <= i < disks.len() && #[trigger] holds_root(disks[i]@);
        assert(!holds_root(disks[i]@));
    }
    disks[0].clone()
}

/// What waiting for a drive decides after one look at its status.
#[derive(PartialEq, Eq, Structural, Debug)]
pub enum DiskWait {
    /// The drive is no longer busy.
    Ready,
    /// The drive reported an error, or the wait timed out.
    Failed,
    /// The drive is still busy: look again.
    Waiting,
}

/// Ticks after which waiting for a drive gives up.
pub const DISK_TIMEOUT: u64 = 10;

/// One step of waiting for a drive that was first asked at tick `started_waiting`:
/// `status` is its status register, or `None` where it reports an error, and `now`
/// the tick after the read. A drive that is not busy is ready; an error fails the
/// wait, and so does a busy drive once more than the timeout has passed.
pub fn wait_for_disk(status: Option<u8>, started_waiting: u64, now: u64) -> (r: DiskWait)
    requires
        started_waiting <= u64::MAX - DISK_TIMEOUT,
    ensures
        r == match status {
            Some(s) => if s & 0b1000_0000u8 == 0 {
                DiskWait::Ready
            } else if now > started_waiting + DISK_TIMEOUT {
                DiskWait::Failed
            } else {
                DiskWait::Waiting
            },
            None => DiskWait::Failed,
        },
{
    match status {
        Some(s) => {
            if is_not_busy(s) {
                return DiskWait::Ready;
            }
        },
        None => {
            return DiskWait::Failed;
        },
    }
    if now > started_waiting + DISK_TIMEOUT {
        DiskWait::Failed
    } else {
        DiskWait::Waiting
    }
}

/// Register of the data words, as an offset from the channel's base port.
pub const ATA_DATA: u16 = 0;
/// Register of the sector count.
pub const ATA_SECTORCOUNT: u16 = 2;
/// Registers of the three low bytes of the sector address.
pub const ATA_SECTORNUMBER1: u16 = 3;
pub const ATA_SECTORNUMBER2: u16 = 4;
pub const ATA_SECTORNUMBER3: u16 = 5;
/// Register of the drive and the top bits of the sector address.
pub const ATA_DRIVEHEAD: u16 = 6;
/// Register of the command.
pub const ATA_COMMAND: u16 = 7;
/// Command that reads sectors, with retries.
pub const ATA_READ: u8 = 0x20;
/// Command that writes sectors.
pub const ATA_WRITE: u8 = 0x30;

/// `c` is the register writes, in order, that start a transfer of one sector `sector`
/// on drive `h` with `command`: a sector count of one, the three low address bytes,
/// the drive and top address byte, then the command.
pub open spec fn is_transfer_command(c: Seq<(u16, u8)>, h: u8, sector: i32, command: u8) -> bool {
    &&& c.len() == 6
    &&& c[0] == (ATA_SECTORCOUNT, 1u8)
    &&& c[1].0 == ATA_SECTORNUMBER1
    &&& c[2].0 == ATA_SECTORNUMBER2
    &&& c[3].0 == ATA_SECTORNUMBER3
    &&& c[4].0 == ATA_DRIVEHEAD
    &&& c[5] == (ATA_COMMAND, command)
    &&& c[1].1 + c[2].1 * 0x100 + c[3].1 * 0x1_0000 + (c[4].1 % 16) * 0x100_0000 == sector % 0x1000_0000
    &&& c[4].1 / 16 == 0xE + h
}

/// The register writes, in order, that start a transfer of one sector `sector` on
/// drive `h` with `command`: one sector to transfer, the address and drive bytes,
/// then the command.
pub fn transfer_command(h: u8, sector: i32, command: u8) -> (r: Vec<(u16, u8)>)
    requires
        0 <= sector,
        h <= 1,
    ensures
        is_transfer_command(r@, h, sector, command),
{
    let b = sector_select_bytes(h, sector);
    vec![
        (ATA_SECTORCOUNT, 1u8),
        (ATA_SECTORNUMBER1, b[0]),
        (ATA_SECTORNUMBER2, b[1]),
        (ATA_SECTORNUMBER3, b[2]),
        (ATA_DRIVEHEAD, b[3]),
        (ATA_COMMAND, command),
    ]
}

/// Whether a drive whose status is `status` has data waiting to be transferred,
/// which a new transfer must not meet.
pub fn data_pending(status: u8) -> (r: bool)
    ensures
        r == (status & 0b1000u8 != 0),
{
    status & 0b1000u8 != 0
}

/// Where a transfer stands after a look at the drive's status.
#[derive(PartialEq, Eq, Structural, Debug)]
pub enum TransferStatus {
    /// The drive asks for the data words: not busy, data request set.
    Ready,
    /// The drive reports a fault or an error: the transfer fails.
    Failed,
    /// Look again.
    Busy,
}

/// Where a transfer stands, `status` being the status register (or `None` where
/// the drive reports an error): ready once busy is clear and data request set;
/// failed on a drive fault (and, when writing, on the error bit).
pub fn transfer_status(status: Option<u8>, writing: bool) -> (r: TransferStatus)
    ensures
        r == match status {
            None => TransferStatus::Failed,
            Some(s) => if s & 0b1000_1000u8 == 0b0000_1000u8 {
                TransferStatus::Ready
            } else if s & (if writing { 0b10_0001u8 } else { 0b10_0000u8 }) != 0 {
                TransferStatus::Failed
            } else {
                TransferStatus::Busy
            },
        },
{
    match status {
        None => TransferStatus::Failed,
        Some(s) => {
            if s & 0b1000_1000u8 == 0b0000_1000u8 {
                TransferStatus::Ready
            } else if s & (if writing { 0b10_0001u8 } else { 0b10_0000u8 }) != 0 {
                TransferStatus::Failed
            } else {
                TransferStatus::Busy
            }
        },
    }
}

/// Where a transfer of one sector with a drive stands.
#[derive(Clone, Copy, PartialEq, Eq, Structural, Debug)]
pub enum TransferStage {
    /// About to look whether the drive still holds data of an earlier transfer.
    Check,
    /// Waiting, since tick `since`, for the drive to be no longer busy.
    Wait { since: u64 },
    /// The command went out: waiting for the drive to ask for the data words.
    Await,
    /// The data words are being moved.
    Data,
    /// The words moved: a last look at the status.
    Last,
    /// The transfer is over.
    Done,
    /// The transfer failed (the drive erred, faulted or timed out).
    Failed,
}

/// What the driver does next on the drive's ports, registers given as offsets from
/// the channel's base port.
#[derive(Debug)]
pub enum PortAction {
    /// Read the status register and report it.
    ReadStatus,
    /// Write these bytes to these registers, in order, then read the status.
    WriteRegisters(Vec<(u16, u8)>),
    /// Read the 256 data words and report them.
    ReadWords,
    /// Write these data words, in order, and report it.
    WriteWords(Vec<u16>),
    /// The transfer is over; a read's bytes are the transfer's `data`.
    Finished,
    /// The transfer failed.
    Fail,
}

/// What the ports gave back to the driver.
#[derive(Debug)]
pub enum PortEvent {
    /// The status register (`None` where the drive reports an error) and the tick.
    Status(Option<u8>, u64),
    /// The data words read.
    Words(Vec<u16>),
    /// The data words were written.
    Written,
}

/// A transfer of sector `sector` with drive `h`: a read, or a write of `data`; a
/// read's bytes land in `data`.
pub struct SectorTransfer {
    pub h: u8,
    pub sector: i32,
    pub writing: bool,
    pub data: [u8; 512],
    pub stage: TransferStage,
}

/// The transfer's sector and drive can be sent to the drive, and its waiting
/// started early enough that the timeout can be added.
pub open spec fn transfer_ok(t: SectorTransfer) -> bool {
    &&& 0 <= t.sector
    &&& t.h <= 1
    &&& t.stage matches TransferStage::Wait { since } ==> since <= u64::MAX - DISK_TIMEOUT
}

impl SectorTransfer {
    /// A transfer about to start: the first action is to read the status.
    pub fn new(h: u8, sector: i32, writing: bool, data: [u8; 512]) -> (r: SectorTransfer)
        requires
            0 <= sector,
            h <= 1,
        ensures
            transfer_ok(r),
            r.h == h && r.sector == sector && r.writing == writing && r.data == data,
            r.stage == TransferStage::Check,
    {
        SectorTransfer { h, sector, writing, data, stage: TransferStage::Check }
    }

    /// One step of the transfer: what the ports gave back decides the next stage and
    /// what to do on the ports. A transfer refuses to start while the drive holds
    /// data, waits until the drive is not busy (failing on an error or a timeout),
    /// sends the command, waits for the drive to ask for the words (failing on a
    /// fault, or, writing, on an error), moves the 256 words and ends once the status
    /// reads without an error. An event the stage does not expect fails the transfer.
    pub fn step(&mut self, event: PortEvent) -> (r: PortAction)
        requires
            transfer_ok(*old(self)),
        ensures
            transfer_ok(*final(self)),
            final(self).h == old(self).h,
            final(self).sector == old(self).sector,
            final(self).writing == old(self).writing,
            !(old(self).stage == TransferStage::Data && !old(self).writing) ==> final(self).data == old(self).data,
            (r is Fail) <==> (final(self).stage == TransferStage::Failed),
            match (old(self).stage, event) {
                (TransferStage::Check, PortEvent::Status(Some(s), now)) => if s & 0b1000u8 != 0 {
                    r is Fail
                } else if now <= u64::MAX - DISK_TIMEOUT {
                    final(self).stage == (TransferStage::Wait { since: now }) && r is ReadStatus
                } else {
                    r is Fail
                },
                (TransferStage::Wait { since }, PortEvent::Status(st, now)) => match st {
                    Some(s) => if s & 0b1000_0000u8 == 0 {
                        &&& final(self).stage == TransferStage::Await
                        &&& r matches PortAction::WriteRegisters(c) && is_transfer_command(
                            c@,
                            old(self).h,
                            old(self).sector,
                            if old(self).writing { ATA_WRITE } else { ATA_READ },
                        )
                    } else if now > since + DISK_TIMEOUT {
                        r is Fail
                    } else {
                        final(self).stage == old(self).stage && r is ReadStatus
                    },
                    None => r is Fail,
                },
                (TransferStage::Await, PortEvent::Status(Some(s), _)) => if s & 0b1000_1000u8 == 0b0000_1000u8 {
                    &&& final(self).stage == TransferStage::Data
                    &&& if old(self).writing {
                        r matches PortAction::WriteWords(w) && w@.len() == 256 && forall|i: int|
                            0 <= i < 256 ==> #[trigger] w@[i] == old(self).data[2 * i] + old(self).data[2 * i + 1] * 256
                    } else {
                        r is ReadWords
                    }
                } else if s & (if old(self).writing { 0b10_0001u8 } else { 0b10_0000u8 }) != 0 {
                    r is Fail
                } else {
                    final(self).stage == old(self).stage && r is ReadStatus
                },
                (TransferStage::Data, PortEvent::Words(w)) => if !old(self).writing && w@.len() == 256 {
                    &&& final(self).stage == TransferStage::Last
                    &&& r is ReadStatus
                    &&& forall|i: int| 0 <= i < 256 ==> final(self).data[2 * i] + final(self).data[2 * i + 1] * 256 == #[trigger] w@[i]
                } else {
                    r is Fail
                },
                (TransferStage::Data, PortEvent::Written) => if old(self).writing {
                    final(self).stage == TransferStage::Last && r is ReadStatus
                } else {
                    r is Fail
                },
                (TransferStage::Last, PortEvent::Status(Some(_), _)) => final(self).stage == TransferStage::Done && r is Finished,
                _ => r is Fail,
            },
    {
        let stage = self.stage;
        match (stage, event) {
            (TransferStage::Check, PortEvent::Status(Some(s), now)) => {
                if data_pending(s) || now > u64::MAX - DISK_TIMEOUT {
                    self.stage = TransferStage::Failed;
                    PortAction::Fail
                } else {
                    self.stage = TransferStage::Wait { since: now };
                    PortAction::ReadStatus
                }
            },
            (TransferStage::Wait { since }, PortEvent::Status(st, now)) => {
                match wait_for_disk(st, since, now) {
                    DiskWait::Ready => {
                        self.stage = TransferStage::Await;
                        let command = if self.writing { ATA_WRITE } else { ATA_READ };
                        PortAction::WriteRegisters(transfer_command(self.h, self.sector, command))
                    },
                    DiskWait::Failed => {
                        self.stage = TransferStage::Failed;
                        PortAction::Fail
                    },
                    DiskWait::Waiting => PortAction::ReadStatus,
                }
            },
            (TransferStage::Await, PortEvent::Status(Some(s), now)) => {
                match transfer_status(Some(s), self.writing) {
                    TransferStatus::Ready => {
                        self.stage = TransferStage::Data;
                        if self.writing {
                            PortAction::WriteWords(sector_to_words(&self.data))
                        } else {
                            PortAction::ReadWords
                        }
                    },
                    TransferStatus::Failed => {
                        self.stage = TransferStage::Failed;
                        PortAction::Fail
                    },
                    TransferStatus::Busy => PortAction::ReadStatus,
                }
            },
            (TransferStage::Data, PortEvent::Words(w)) => {
                if !self.writing && w.len() == 256 {
                    self.data = words_to_sector(&w);
                    self.stage = TransferStage::Last;
                    PortAction::ReadStatus
                } else {
                    self.stage = TransferStage::Failed;
                    PortAction::Fail
                }
            },
            (TransferStage::Data, PortEvent::Written) => {
                if self.writing {
                    self.stage = TransferStage::Last;
                    PortAction::ReadStatus
                } else {
                    self.stage = TransferStage::Failed;
                    PortAction::Fail
                }
            },
            (TransferStage::Last, PortEvent::Status(Some(_), _)) => {
                self.stage = TransferStage::Done;
                PortAction::Finished
            },
            _ => {
                self.stage = TransferStage::Failed;
                PortAction::Fail
            },
        }
    }
}

/// The I/O port bases of the channels probed for drives, in order.
pub open spec fn probe_bases() -> Seq<u16> {
    seq![0x1F0u16, 0x3F0u16, 0x170u16, 0x370u16, 0x1E8u16, 0x3E0u16, 0x168u16, 0x360u16]
}

/// The positions probed for drives, in order: each channel base, master then slave.
pub fn probe_positions() -> (r: Vec<(u16, u8)>)
    ensures
        r@.len() == 16,
        forall|i: int| 0 <= i < 16 ==> #[trigger] r@[i] == (probe_bases()[i / 2], (i % 2) as u8),
{
    let bases: [u16; 8] = [0x1F0, 0x3F0, 0x170, 0x370, 0x1E8, 0x3E0, 0x168, 0x360];
    let mut r: Vec<(u16, u8)> = Vec::new();
    let mut b: usize = 0;
    while b < 8
        invariant
            b <= 8,
            bases@ == probe_bases(),
            r@.len() == 2 * b,
            forall|i: int| 0 <= i < 2 * b ==> #[trigger] r@[i] == (probe_bases()[i / 2], (i % 2) as u8),
        decreases 8 - b,
    {
        r.push((bases[b], 0));
        r.push((bases[b], 1));
        b = b + 1;
    }
    r
}

/// The drive-select byte that addresses drive `h` of a channel when probing it.
pub fn probe_select_byte(h: u8) -> (r: u8)
    requires
        h <= 1,
    ensures
        r == 0xA0 + 16 * h,
{
    let r = 0xA0u8 | (h << 4u8);
    assert(r == 0xA0 + 16 * h) by (bit_vector)
        requires
            h <= 1,
            r == 0xA0u8 | (h << 4u8),
    ;
    r
}

/// Register of the status, as an offset from the channel's base port; written, it
/// takes a command.
pub const ATA_STATUS: u16 = 7;
/// Command that asks a drive for the highest sector it can address.
pub const ATA_READ_NATIVE_MAX: u8 = 0xF8;

/// Position `i` of the probe order: the channel base and the drive on it.
pub open spec fn probe_position(i: int) -> (u16, u8) {
    (probe_bases()[i / 2], (i % 2) as u8)
}

/// Where probing a position for a drive stands.
#[derive(Clone, Copy, PartialEq, Eq, Structural, Debug)]
pub enum ProbeStage {
    /// The drive was selected: is one there?
    Select,
    /// A drive is there and was asked to use addresses: waiting for it to be ready.
    Ready,
    /// It was asked for its size; waiting, since tick `since`, for it to be no longer busy.
    Wait { since: u64 },
    /// Its size registers are being read.
    Size,
    /// Every position was probed.
    Done,
}

/// What probing does next on the ports of the channel at `base`.
#[derive(Clone, Copy, PartialEq, Eq, Structural, Debug)]
pub enum ProbeAction {
    /// Write `value` to `register`, then read the status and report it.
    WriteThenStatus { base: u16, register: u16, value: u8 },
    /// Read the status and report it.
    ReadStatus { base: u16 },
    /// Read the three sector-number registers and the drive register and report them.
    ReadSize { base: u16 },
    /// Probing is over.
    Finished,
}

/// What the ports gave back to probing.
#[derive(Clone, Copy, Debug)]
pub enum ProbeEvent {
    /// The status register (`None` where the drive reports an error) and the tick.
    Status(Option<u8>, u64),
    /// The sector-number registers 1 to 3 and the drive register.
    Size(u8, u8, u8, u8),
}

/// Probing the positions in order for drives; `found` holds each drive found, with
/// its number of sectors.
pub struct DriveProbe {
    pub index: usize,
    pub stage: ProbeStage,
    pub found: Vec<(u16, u8, usize)>,
}

/// The probe is at a position, or done after the last, and its wait started early
/// enough that the timeout can be added.
pub open spec fn probe_ok(p: DriveProbe) -> bool {
    &&& p.index <= 16
    &&& (p.stage == ProbeStage::Done) == (p.index == 16)
    &&& p.stage matches ProbeStage::Wait { since } ==> since <= u64::MAX - DISK_TIMEOUT
}

/// What probing does on coming to position `i`: select its drive, or finish after
/// the last.
pub open spec fn select_action(i: int) -> ProbeAction {
    if i >= 16 {
        ProbeAction::Finished
    } else {
        ProbeAction::WriteThenStatus {
            base: probe_position(i).0,
            register: ATA_DRIVEHEAD,
            value: (0xA0 + 16 * probe_position(i).1) as u8,
        }
    }
}

/// The channel base and drive of probe position `i`.
fn position_at(i: usize) -> (r: (u16, u8))
    requires
        i < 16,
    ensures
        r == probe_position(i as int),
{
    let bases: [u16; 8] = [0x1F0, 0x3F0, 0x170, 0x370, 0x1E8, 0x3E0, 0x168, 0x360];
    assert(bases@ == probe_bases());
    (bases[i / 2], (i % 2) as u8)
}

impl DriveProbe {
    /// A probe about to select the first position; the action selects it.
    pub fn new() -> (r: (DriveProbe, ProbeAction))
        ensures
            probe_ok(r.0),
            r.0.index == 0,
            r.0.stage == ProbeStage::Select,
            r.0.found@ == Seq::<(u16, u8, usize)>::empty(),
            r.1 == select_action(0),
    {
        let mut p = DriveProbe { index: 0, stage: ProbeStage::Select, found: Vec::new() };
        let a = p.go_to(0);
        (p, a)
    }

    /// Comes to position `i`.
    fn go_to(&mut self, i: usize) -> (r: ProbeAction)
        requires
            i <= 16,
        ensures
            final(self).index == i,
            final(self).found == old(self).found,
            final(self).stage == (if i == 16 { ProbeStage::Done } else { ProbeStage::Select }),
            r == select_action(i as int),
    {
        self.index = i;
        if i == 16 {
            self.stage = ProbeStage::Done;
            ProbeAction::Finished
        } else {
            self.stage = ProbeStage::Select;
            let (base, h) = position_at(i);
            ProbeAction::WriteThenStatus { base, register: ATA_DRIVEHEAD, value: probe_select_byte(h) }
        }
    }

    /// One step of probing: a selected position with a drive there is asked to use
    /// addresses and waited on until ready, then asked for its size, which is read
    /// once it is no longer busy; a position with no drive, one that reports an error,
    /// and one whose wait fails or times out is passed over. An event the stage does not
    /// expect passes over the position.
    pub fn step(&mut self, event: ProbeEvent) -> (r: ProbeAction)
        requires
            probe_ok(*old(self)),
            old(self).stage != ProbeStage::Done,
        ensures
            probe_ok(*final(self)),
            ({
                let i = old(self).index as int;
                let (base, h) = probe_position(i);
                let skip = final(self).index == i + 1 && r == select_action(i + 1) && final(self).found@ == old(self).found@;
                let stay = final(self).index == i && final(self).found@ == old(self).found@;
                match (old(self).stage, event) {
                    (ProbeStage::Select, ProbeEvent::Status(Some(st), _)) => if st & 0b111_0001u8 == 0b101_0000u8 {
                        stay && final(self).stage == ProbeStage::Ready && r == (ProbeAction::WriteThenStatus {
                            base,
                            register: ATA_DRIVEHEAD,
                            value: (0x40 + 16 * h) as u8,
                        })
                    } else {
                        skip
                    },
                    (ProbeStage::Ready, ProbeEvent::Status(Some(st), now)) => if st & 0b100_0000u8 != 0 && now <= u64::MAX
                        - DISK_TIMEOUT {
                        stay && final(self).stage == (ProbeStage::Wait { since: now }) && r == (ProbeAction::WriteThenStatus {
                            base,
                            register: ATA_STATUS,
                            value: ATA_READ_NATIVE_MAX,
                        })
                    } else if st & 0b100_0000u8 != 0 {
                        skip
                    } else {
                        stay && final(self).stage == ProbeStage::Ready && r == (ProbeAction::ReadStatus { base })
                    },
                    (ProbeStage::Wait { since }, ProbeEvent::Status(Some(st), now)) => if st & 0b1000_0000u8 == 0 {
                        stay && final(self).stage == ProbeStage::Size && r == (ProbeAction::ReadSize { base })
                    } else if now > since + DISK_TIMEOUT {
                        skip
                    } else {
                        stay && final(self).stage == old(self).stage && r == (ProbeAction::ReadStatus { base })
                    },
                    (ProbeStage::Size, ProbeEvent::Size(r1, r2, r3, r4)) => {
                        &&& final(self).index == i + 1
                        &&& r == select_action(i + 1)
                        &&& final(self).found@ == old(self).found@.push(
                            (base, h, (r1 + r2 * 0x100 + r3 * 0x1_0000 + (r4 % 16) * 0x100_0000) as usize),
                        )
                    },
                    _ => skip,
                }
            }),
    {
        let i = self.index;
        let (base, h) = position_at(i);
        match (self.stage, event) {
            (ProbeStage::Select, ProbeEvent::Status(Some(st), _)) => {
                if is_drive_present(st) {
                    self.stage = ProbeStage::Ready;
                    let value = 0x40u8 | (h << 4u8);
                    assert(value == 0x40 + 16 * h) by (bit_vector)
                        requires
                            h <= 1,
                            value == 0x40u8 | (h << 4u8),
                    ;
                    ProbeAction::WriteThenStatus { base, register: ATA_DRIVEHEAD, value }
                } else {
                    self.go_to(i + 1)
                }
            },
            (ProbeStage::Ready, ProbeEvent::Status(Some(st), now)) => {
                if st & 0b100_0000u8 != 0 {
                    if now <= u64::MAX - DISK_TIMEOUT {
                        self.stage = ProbeStage::Wait { since: now };
                        ProbeAction::WriteThenStatus { base, register: ATA_STATUS, value: ATA_READ_NATIVE_MAX }
                    } else {
                        self.go_to(i + 1)
                    }
                } else {
                    ProbeAction::ReadStatus { base }
                }
            },
            (ProbeStage::Wait { since }, ProbeEvent::Status(Some(st), now)) => {
                match wait_for_disk(Some(st), since, now) {
                    DiskWait::Ready => {
                        self.stage = ProbeStage::Size;
                        ProbeAction::ReadSize { base }
                    },
                    DiskWait::Failed => self.go_to(i + 1),
                    DiskWait::Waiting => ProbeAction::ReadStatus { base },
                }
            },
            (ProbeStage::Size, ProbeEvent::Size(r1, r2, r3, r4)) => {
                let size = disk_size_from_registers(r1, r2, r3, r4);
                self.found.push((base, h, size));
                self.go_to(i + 1)
            },
            _ => self.go_to(i + 1),
        }
    }
}

} // verus!

use std::cell::RefCell;
use std::rc::Rc;

use virtio::buffer::{
    BufferDirection, DescExtra, DescState, DescriptorLayout, DmaSegment, Token, VirtQueueFeatures,
};
use virtio::errno::{Errno, EINVAL, EIO, ENOMEM, ENOTSUPP};
use virtio::error::{Error, VirtQueueError};
use virtio::hal::{Allocator, DmaRegion, Hal, MemoryRegion, Platform};
use virtio::queue;
use virtio::ring::{Descriptor, UsedElem};
use virtio::transport::{self, Interrupt, QueueConfig, VirtqueueInfo};
use virtio::utils::{Le16, Le32, Le64};
use virtio::virtqueue::VirtQueue;

/// What the CPU adds to an offset in the memory to address it.
const CPU: usize = 0x1000;

/// What the device adds to an offset in the memory to address it.
const DMA: u64 = 0x10_0000;

/// Memory that a driver and a device share, and what was done with it.
struct Memory {
    bytes: Vec<u8>,
    top: usize,
    regions: Vec<(usize, usize)>,
    blocks: Vec<(usize, usize, usize)>,
    log: Vec<&'static str>,
    refuse_dma: bool,
    refuse_alloc: usize,
    short: usize,
}

#[derive(Clone)]
struct Shared(Rc<RefCell<Memory>>);

impl Shared {
    fn new() -> Self {
        Shared(Rc::new(RefCell::new(Memory {
            bytes: vec![0; 0x20_0000],
            top: 0,
            regions: Vec::new(),
            blocks: Vec::new(),
            log: Vec::new(),
            refuse_dma: false,
            refuse_alloc: 0,
            short: 0,
        })))
    }

    fn u16_at(&self, at: usize) -> u16 {
        let m = self.0.borrow();
        u16::from_le_bytes([m.bytes[at], m.bytes[at + 1]])
    }

    fn u32_at(&self, at: usize) -> u32 {
        self.u16_at(at) as u32 | (self.u16_at(at + 2) as u32) << 16
    }

    fn u64_at(&self, at: usize) -> u64 {
        self.u32_at(at) as u64 | (self.u32_at(at + 4) as u64) << 32
    }

    fn put_u16(&self, at: usize, value: u16) {
        let mut m = self.0.borrow_mut();
        m.bytes[at] = value.to_le_bytes()[0];
        m.bytes[at + 1] = value.to_le_bytes()[1];
    }

    fn put_u32(&self, at: usize, value: u32) {
        self.put_u16(at, value as u16);
        self.put_u16(at + 2, (value >> 16) as u16);
    }

    /// The descriptor `i` of the table at offset `at`: address, length, flags and next.
    fn desc(&self, at: usize, i: usize) -> (u64, u32, u16, u16) {
        let d = at + 16 * i;
        (self.u64_at(d), self.u32_at(d + 8), self.u16_at(d + 12), self.u16_at(d + 14))
    }

    fn live_regions(&self) -> usize {
        self.0.borrow().regions.len()
    }

    fn live_blocks(&self) -> usize {
        self.0.borrow().blocks.len()
    }

    fn take_log(&self) -> Vec<&'static str> {
        std::mem::take(&mut self.0.borrow_mut().log)
    }
}

impl Allocator for Shared {
    type Error = Errno;

    fn allocate(&mut self, size: usize, align: usize) -> Result<MemoryRegion<Self>, Errno> {
        let mut m = self.0.borrow_mut();
        m.log.push("alloc");
        if m.refuse_alloc > 0 {
            m.refuse_alloc -= 1;
            if m.refuse_alloc == 0 {
                return Err(Errno(ENOMEM));
            }
        }
        let at = 0x10 + m.blocks.len() * 0x1000;
        m.blocks.push((at, size, align));
        Ok(MemoryRegion::new(at, size, align))
    }

    fn dealloc(&mut self, ptr: usize, size: usize, align: usize) {
        let mut m = self.0.borrow_mut();
        m.log.push("dealloc");
        let i = m.blocks.iter().position(|b| *b == (ptr, size, align)).unwrap();
        m.blocks.remove(i);
    }

    fn dma_alloc(&mut self, size: usize, align: usize) -> Result<DmaRegion, Errno> {
        let mut m = self.0.borrow_mut();
        m.log.push("dma_alloc");
        if m.refuse_dma {
            return Err(Errno(ENOMEM));
        }
        let at = (m.top + align - 1) / align * align;
        let size = size - m.short;
        m.top = at + size;
        m.regions.push((CPU + at, size));
        Ok(DmaRegion::new(CPU + at, DMA + at as u64, size))
    }

    fn dma_free(&mut self, region: DmaRegion) {
        let mut m = self.0.borrow_mut();
        m.log.push("dma_free");
        let i = m.regions.iter().position(|r| *r == (region.cpu_addr, region.size)).unwrap();
        m.regions.remove(i);
    }
}

impl Hal for Shared {
    fn write_barrier(&mut self) {
        self.0.borrow_mut().log.push("wmb");
    }

    fn read_barrier(&mut self) {
        self.0.borrow_mut().log.push("rmb");
    }

    fn mb(&mut self) {
        self.0.borrow_mut().log.push("mb");
    }

    fn clear(&mut self, region: &DmaRegion, len: usize) {
        let at = region.cpu_addr - CPU;
        let mut m = self.0.borrow_mut();
        m.log.push("clear");
        m.bytes[at..at + len].fill(0);
    }

    fn store_desc(&mut self, region: &DmaRegion, offset: usize, desc: Descriptor) {
        assert!(offset + 16 <= region.size);
        let at = region.cpu_addr - CPU + offset;
        self.0.borrow_mut().log.push("desc");
        let addr = desc.addr.to_cpu();
        self.put_u32(at, addr as u32);
        self.put_u32(at + 4, (addr >> 32) as u32);
        self.put_u32(at + 8, desc.len.to_cpu());
        self.put_u16(at + 12, desc.flags.to_cpu());
        self.put_u16(at + 14, desc.next.to_cpu());
    }

    fn load_desc(&mut self, region: &DmaRegion, offset: usize) -> Descriptor {
        assert!(offset + 16 <= region.size);
        let (addr, len, flags, next) = self.desc(region.cpu_addr - CPU + offset, 0);
        Descriptor {
            addr: Le64::from(addr),
            len: Le32::from(len),
            flags: Le16::from(flags),
            next: Le16::from(next),
        }
    }

    fn store_u16(&mut self, region: &DmaRegion, offset: usize, value: Le16) {
        assert!(offset + 2 <= region.size);
        self.0.borrow_mut().log.push("u16");
        self.put_u16(region.cpu_addr - CPU + offset, value.to_cpu());
    }

    fn load_u16(&mut self, region: &DmaRegion, offset: usize) -> Le16 {
        assert!(offset + 2 <= region.size);
        Le16::from(self.u16_at(region.cpu_addr - CPU + offset))
    }

    fn load_elem(&mut self, region: &DmaRegion, offset: usize) -> UsedElem {
        assert!(offset + 8 <= region.size);
        let at = region.cpu_addr - CPU + offset;
        UsedElem { id: Le32::from(self.u32_at(at)), len: Le32::from(self.u32_at(at + 4)) }
    }
}

/// Where the available ring of a queue of 8 lies.
const AVAIL: usize = 128;

/// Where the used ring of a queue of 8 lies.
const USED: usize = 152;

const PLAIN: VirtQueueFeatures = VirtQueueFeatures { event_idx: false, indirect: true };
const EVENTS: VirtQueueFeatures = VirtQueueFeatures { event_idx: true, indirect: true };

fn queue_of_8(m: &Shared, features: VirtQueueFeatures) -> VirtQueue<Shared> {
    match VirtQueue::new(m.clone(), 3, 8, features) {
        Ok(q) => q,
        Err(_) => panic!("no queue"),
    }
}

/// The device puts `id` and `len` into the next element of its used ring.
fn use_buffer(m: &Shared, size: usize, used: usize, id: u32, len: u32) {
    let idx = m.u16_at(used + 2);
    let slot = idx as usize % size;
    m.put_u32(used + 4 + 8 * slot, id);
    m.put_u32(used + 8 + 8 * slot, len);
    m.put_u16(used + 2, idx.wrapping_add(1));
}

fn read(addr: u64, len: u32) -> DmaSegment {
    DmaSegment::new(addr, len, BufferDirection::DriverToDevice)
}

fn write(addr: u64, len: u32) -> DmaSegment {
    DmaSegment::new(addr, len, BufferDirection::DeviceToDriver)
}

fn queue_error<T>(r: Result<T, Error<Errno>>) -> VirtQueueError {
    match r {
        Err(Error::Queue(e)) => e,
        Err(Error::Hal(_)) => panic!("error of the platform"),
        Ok(_) => panic!("no error"),
    }
}

#[test]
fn new_queue_is_placed_and_empty() {
    let m = Shared::new();
    let q = queue_of_8(&m, PLAIN);
    assert_eq!(q.size(), 8);
    assert_eq!(q.queue_index(), 3);
    assert_eq!(q.num_free(), 8);
    assert!(q.is_empty());
    assert!(q.has_free_descriptors());
    assert!(!q.has_outstanding_requests());
    assert!(!q.is_broken());
    assert_eq!(q.descriptor_dma_addr().unwrap(), DMA);
    assert_eq!(q.driver_area_dma_addr().unwrap(), DMA + AVAIL as u64);
    assert_eq!(q.device_area_dma_addr().unwrap(), DMA + USED as u64);
    assert_eq!(m.0.borrow().regions, vec![(CPU, 222)]);
    assert_eq!(m.take_log(), vec!["alloc", "alloc", "dma_alloc"]);
}

#[test]
fn queue_size_must_be_a_power_of_two() {
    for size in [0, 3, 6, 100, 65535] {
        let m = Shared::new();
        let r = VirtQueue::new(m.clone(), 0, size, PLAIN);
        assert_eq!(queue_error(r), VirtQueueError::InvalidQueueSize);
        assert!(m.take_log().is_empty());
    }
    for size in [1, 2, 4, 32768] {
        assert!(VirtQueue::new(Shared::new(), 0, size, PLAIN).is_ok());
    }
}

#[test]
fn failed_creation_returns_the_platform() {
    let m = Shared::new();
    match VirtQueue::create(Platform::new(m.clone()), 0, 6, PLAIN) {
        Err((Error::Queue(VirtQueueError::InvalidQueueSize), hal)) => {
            assert!(hal.into_inner().take_log().is_empty());
        }
        _ => panic!("a queue of 6"),
    }
    let (states, extras) = tables(6);
    match queue::VirtQueue::create(Platform::new(m.clone()), 0, 6, states, extras, PLAIN) {
        Err((Error::Queue(VirtQueueError::InvalidQueueSize), hal)) => {
            assert!(hal.into_inner().take_log().is_empty());
        }
        _ => panic!("a queue of 6"),
    }
    m.0.borrow_mut().refuse_dma = true;
    let (states, extras) = tables(8);
    match queue::VirtQueue::create(Platform::new(m.clone()), 0, 8, states, extras, PLAIN) {
        Err((Error::Hal(Errno(ENOMEM)), hal)) => {
            assert_eq!(hal.into_inner().take_log(), vec!["dma_alloc"]);
        }
        _ => panic!("memory"),
    }
}

#[test]
fn failed_creation_gives_all_memory_back() {
    let m = Shared::new();
    m.0.borrow_mut().refuse_dma = true;
    let r = VirtQueue::new(m.clone(), 0, 8, PLAIN);
    assert!(matches!(r, Err(Error::Hal(Errno(ENOMEM)))));
    assert_eq!(m.live_blocks(), 0);

    let m = Shared::new();
    m.0.borrow_mut().short = 1;
    let r = VirtQueue::new(m.clone(), 0, 8, PLAIN);
    assert_eq!(queue_error(r), VirtQueueError::MemoryAllocationFailed);
    assert_eq!(m.live_blocks(), 0);
    assert_eq!(m.live_regions(), 0);
    assert_eq!(
        m.take_log(),
        vec!["alloc", "alloc", "dma_alloc", "dma_free", "dealloc", "dealloc"]
    );

    for n in [1, 2] {
        let m = Shared::new();
        m.0.borrow_mut().refuse_alloc = n;
        let r = VirtQueue::new(m.clone(), 0, 8, PLAIN);
        assert!(matches!(r, Err(Error::Hal(Errno(ENOMEM)))));
        assert_eq!(m.live_blocks(), 0);
        assert_eq!(m.live_regions(), 0);
    }
}

#[test]
fn direct_request_is_chained() {
    let m = Shared::new();
    let mut q = queue_of_8(&m, PLAIN);
    m.take_log();
    let segments = [read(0xaaaa, 16), write(0xbbbb, 512), write(0xcc_0000_0001, 1)];
    assert!(matches!(q.add(&segments, Token::new(7), DescriptorLayout::Direct), Ok(0)));
    assert_eq!(m.take_log(), vec!["desc", "desc", "desc", "u16", "wmb", "u16"]);
    assert_eq!(m.desc(0, 0), (0xaaaa, 16, 1, 1));
    assert_eq!(m.desc(0, 1), (0xbbbb, 512, 3, 2));
    assert_eq!(m.desc(0, 2), (0xcc_0000_0001, 1, 2, 0));
    assert_eq!(m.u16_at(AVAIL + 4), 0);
    assert_eq!(m.u16_at(AVAIL + 2), 1);
    assert_eq!(q.num_free(), 5);
    assert!(q.has_outstanding_requests());

    assert!(q.add_outbuf(0xdddd, 4, Token::new(8), DescriptorLayout::Direct).is_ok());
    assert_eq!(m.desc(0, 3), (0xdddd, 4, 0, 0));
    assert_eq!(m.u16_at(AVAIL + 6), 3);
    assert_eq!(m.u16_at(AVAIL + 2), 2);
    assert!(q.add_inbuf(0xeeee, 5, Token::new(9), DescriptorLayout::Direct).is_ok());
    assert_eq!(m.desc(0, 4), (0xeeee, 5, 2, 0));
}

#[test]
fn used_request_is_returned() {
    let m = Shared::new();
    let mut q = queue_of_8(&m, PLAIN);
    assert_eq!(q.get_buf(), Ok(None));
    assert!(!q.can_pop());
    assert!(q.add(&[read(1, 1), write(2, 2)], Token::new(70), DescriptorLayout::Direct).is_ok());
    assert!(q.add(&[write(3, 3)], Token::new(71), DescriptorLayout::Direct).is_ok());
    use_buffer(&m, 8, USED, 2, 3);
    use_buffer(&m, 8, USED, 0, 2);
    assert!(q.can_pop());
    assert_eq!(q.get_buf(), Ok(Some((Token::new(71), 3))));
    assert_eq!(q.num_free(), 6);
    assert_eq!(q.get_buf(), Ok(Some((Token::new(70), 2))));
    assert_eq!(q.num_free(), 8);
    assert_eq!(q.get_buf(), Ok(None));
    assert!(!q.has_outstanding_requests());
}

#[test]
fn recycled_descriptors_are_used_first() {
    let m = Shared::new();
    let mut q = queue_of_8(&m, PLAIN);
    for t in 0..3 {
        assert!(q.add_inbuf(t, 1, Token::new(t as usize), DescriptorLayout::Direct).is_ok());
    }
    use_buffer(&m, 8, USED, 1, 0);
    assert_eq!(q.get_buf(), Ok(Some((Token::new(1), 0))));
    let r = q.add(&[read(10, 1), read(11, 1)], Token::new(9), DescriptorLayout::Direct);
    assert!(matches!(r, Ok(1)));
    assert_eq!(m.desc(0, 1), (10, 1, 1, 3));
    assert_eq!(m.desc(0, 3), (11, 1, 0, 0));
    assert_eq!(m.u16_at(AVAIL + 4 + 6), 1);
}

#[test]
fn indirect_request_has_a_table() {
    let m = Shared::new();
    let mut q = queue_of_8(&m, PLAIN);
    m.take_log();
    let segments = [read(1, 10), read(2, 20), write(3, 30)];
    assert!(q.add(&segments, Token::new(7), DescriptorLayout::Indirect).is_ok());
    assert_eq!(
        m.take_log(),
        vec!["dma_alloc", "desc", "desc", "desc", "desc", "u16", "wmb", "u16"]
    );
    assert_eq!(q.num_free(), 7);
    assert_eq!(m.live_regions(), 2);
    let table = 224;
    assert_eq!(m.desc(0, 0), (DMA + table as u64, 48, 4, 0));
    assert_eq!(m.desc(table, 0), (1, 10, 1, 1));
    assert_eq!(m.desc(table, 1), (2, 20, 1, 2));
    assert_eq!(m.desc(table, 2), (3, 30, 2, 0));
    use_buffer(&m, 8, USED, 0, 30);
    assert_eq!(q.get_buf(), Ok(Some((Token::new(7), 30))));
    assert_eq!(m.live_regions(), 1);
    assert_eq!(q.num_free(), 8);
}

#[test]
fn single_segment_needs_no_table() {
    let m = Shared::new();
    let mut q = queue_of_8(&m, PLAIN);
    assert!(q.add(&[read(1, 10)], Token::new(7), DescriptorLayout::Indirect).is_ok());
    assert_eq!(m.live_regions(), 1);
    assert_eq!(m.desc(0, 0), (1, 10, 0, 0));
}

#[test]
fn direct_segments_come_before_the_table() {
    let m = Shared::new();
    let mut q = queue_of_8(&m, PLAIN);
    let segments = [read(1, 10), read(2, 20), write(3, 30), write(4, 40)];
    let layout = DescriptorLayout::DirectThenIndirect { indirect_from: 1 };
    assert!(q.add(&segments, Token::new(7), layout).is_ok());
    let table = 224;
    assert_eq!(m.desc(0, 0), (1, 10, 1, 1));
    assert_eq!(m.desc(0, 1), (DMA + table as u64, 48, 4, 0));
    assert_eq!(m.desc(table, 0), (2, 20, 1, 1));
    assert_eq!(m.desc(table, 1), (3, 30, 3, 2));
    assert_eq!(m.desc(table, 2), (4, 40, 2, 0));
    assert_eq!(q.num_free(), 6);
    use_buffer(&m, 8, USED, 0, 70);
    assert_eq!(q.get_buf(), Ok(Some((Token::new(7), 70))));
    assert_eq!(q.num_free(), 8);
    assert_eq!(m.live_regions(), 1);
}

#[test]
fn unfit_requests_are_refused() {
    let m = Shared::new();
    let mut q = queue_of_8(&m, PLAIN);
    let t = Token::new(0);
    let direct = DescriptorLayout::Direct;
    let from = |indirect_from| DescriptorLayout::DirectThenIndirect { indirect_from };
    m.take_log();
    assert_eq!(queue_error(q.add(&[], t, direct)), VirtQueueError::InvalidParam);
    let r = q.add(&[write(1, 1), read(2, 1)], t, direct);
    assert_eq!(queue_error(r), VirtQueueError::InvalidParam);
    let r = q.add(&[read(1, u32::MAX), read(2, 2)], t, direct);
    assert_eq!(queue_error(r), VirtQueueError::InvalidParam);
    for at in [0, 2, 3] {
        let r = q.add(&[read(1, 1), read(2, 1)], t, from(at));
        assert_eq!(queue_error(r), VirtQueueError::InvalidParam);
    }
    let many: Vec<DmaSegment> = (0..9).map(|i| read(i, 1)).collect();
    assert_eq!(queue_error(q.add(&many, t, direct)), VirtQueueError::QueueFull);
    let r = q.add(&many, t, DescriptorLayout::Indirect);
    assert_eq!(queue_error(r), VirtQueueError::InvalidParam);
    let more: Vec<DmaSegment> = (0..10).map(|i| read(i, 1)).collect();
    assert_eq!(queue_error(q.add(&more, t, from(1))), VirtQueueError::InvalidParam);
    assert_eq!(queue_error(q.add(&more, t, from(8))), VirtQueueError::QueueFull);
    assert!(m.take_log().is_empty());
    assert_eq!(q.num_free(), 8);

    assert!(q.add(&[read(1, u32::MAX), read(2, 1)], t, direct).is_ok());
    assert!(q.add(&more, t, from(2)).is_ok());
}

#[test]
fn full_queue_refuses_requests() {
    let m = Shared::new();
    let mut q = queue_of_8(&m, PLAIN);
    let eight: Vec<DmaSegment> = (0..8).map(|i| read(i, 1)).collect();
    assert!(q.add(&eight, Token::new(1), DescriptorLayout::Direct).is_ok());
    assert!(!q.has_free_descriptors());
    let r = q.add_inbuf(0, 1, Token::new(2), DescriptorLayout::Direct);
    assert_eq!(queue_error(r), VirtQueueError::QueueFull);
    let r = q.add(&eight[..2], Token::new(2), DescriptorLayout::Indirect);
    assert_eq!(queue_error(r), VirtQueueError::QueueFull);
    use_buffer(&m, 8, USED, 0, 0);
    assert_eq!(q.get_buf(), Ok(Some((Token::new(1), 0))));
    assert_eq!(q.num_free(), 8);
}

#[test]
fn indirect_descriptors_must_be_negotiated() {
    let m = Shared::new();
    let features = VirtQueueFeatures { event_idx: false, indirect: false };
    let mut q = queue_of_8(&m, features);
    let segments = [read(1, 1), read(2, 1)];
    let r = q.add(&segments, Token::new(1), DescriptorLayout::Indirect);
    assert_eq!(queue_error(r), VirtQueueError::FeatureNotNegotiated);
    let layout = DescriptorLayout::DirectThenIndirect { indirect_from: 1 };
    let r = q.add(&segments, Token::new(1), layout);
    assert_eq!(queue_error(r), VirtQueueError::FeatureNotNegotiated);
}

#[test]
fn refused_table_leaves_the_queue_alone() {
    let m = Shared::new();
    let mut q = queue_of_8(&m, PLAIN);
    let segments = [read(1, 1), read(2, 1)];
    m.0.borrow_mut().refuse_dma = true;
    let r = q.add(&segments, Token::new(1), DescriptorLayout::Indirect);
    assert!(matches!(r, Err(Error::Hal(Errno(ENOMEM)))));
    m.0.borrow_mut().refuse_dma = false;
    m.0.borrow_mut().short = 16;
    let r = q.add(&segments, Token::new(1), DescriptorLayout::Indirect);
    assert_eq!(queue_error(r), VirtQueueError::MemoryAllocationFailed);
    let layout = DescriptorLayout::DirectThenIndirect { indirect_from: 1 };
    let r = q.add(&segments, Token::new(1), layout);
    assert_eq!(queue_error(r), VirtQueueError::MemoryAllocationFailed);
    assert_eq!(m.live_regions(), 1);
    assert_eq!(q.num_free(), 8);
    assert_eq!(m.u16_at(AVAIL + 2), 0);
}

#[test]
fn unknown_head_breaks_the_queue() {
    let m = Shared::new();
    let mut q = queue_of_8(&m, PLAIN);
    assert!(q.add_inbuf(1, 1, Token::new(1), DescriptorLayout::Direct).is_ok());
    use_buffer(&m, 8, USED, 8, 0);
    assert_eq!(q.get_buf(), Err(VirtQueueError::CorruptedUsedElem));
    assert!(q.is_broken());
    assert_eq!(q.get_buf(), Err(VirtQueueError::BrokenVirtQueue));
    let r = q.add_inbuf(1, 1, Token::new(2), DescriptorLayout::Direct);
    assert_eq!(queue_error(r), VirtQueueError::BrokenVirtQueue);
    assert_eq!(q.detach_unused(), Err(VirtQueueError::BrokenVirtQueue));
    assert!(!q.kick_prepare());
    assert_eq!(q.reset_virtqueue_state(), Err(VirtQueueError::QueueNotEmpty));
    assert_eq!(q.num_free(), 7);
    assert_eq!(q.take_outstanding_token(), Some(Token::new(1)));
    assert_eq!(q.num_free(), 8);
    assert!(q.is_broken());
    assert_eq!(q.take_outstanding_token(), None);
    assert_eq!(q.reset_virtqueue_state(), Ok(()));
    assert!(!q.is_broken());
    assert_eq!(q.num_free(), 8);
}

#[test]
fn head_without_request_breaks_the_queue() {
    let m = Shared::new();
    let mut q = queue_of_8(&m, PLAIN);
    assert!(q.add(&[read(1, 1), read(2, 1)], Token::new(1), DescriptorLayout::Direct).is_ok());
    use_buffer(&m, 8, USED, 1, 0);
    assert_eq!(q.get_buf(), Err(VirtQueueError::CorruptedDescriptor));
    assert!(q.is_broken());
}

#[test]
fn request_returned_twice_breaks_the_queue() {
    let m = Shared::new();
    let mut q = queue_of_8(&m, PLAIN);
    assert!(q.add_inbuf(1, 1, Token::new(1), DescriptorLayout::Direct).is_ok());
    use_buffer(&m, 8, USED, 0, 1);
    use_buffer(&m, 8, USED, 0, 1);
    assert_eq!(q.get_buf(), Ok(Some((Token::new(1), 1))));
    assert_eq!(q.get_buf(), Err(VirtQueueError::CorruptedDescriptor));
    assert!(q.is_broken());
}

#[test]
fn endless_or_overlong_chain_breaks_the_queue() {
    let m = Shared::new();
    let mut q = queue_of_8(&m, PLAIN);
    assert!(q.add_inbuf(1, 1, Token::new(1), DescriptorLayout::Direct).is_ok());
    for i in 0..8 {
        m.put_u16(16 * i + 12, 1);
    }
    use_buffer(&m, 8, USED, 0, 0);
    assert_eq!(q.get_buf(), Err(VirtQueueError::CorruptedDescriptor));
    assert!(q.is_broken());

    let m = Shared::new();
    let mut q = queue_of_8(&m, PLAIN);
    assert!(q.add_inbuf(1, 1, Token::new(1), DescriptorLayout::Direct).is_ok());
    m.put_u16(12, 1);
    use_buffer(&m, 8, USED, 0, 0);
    assert_eq!(q.get_buf(), Err(VirtQueueError::CorruptedDescriptor));
    assert!(q.is_broken());
    assert_eq!(q.num_free(), 7);
}

#[test]
fn device_is_notified_unless_it_asks_not_to_be() {
    let m = Shared::new();
    let mut q = queue_of_8(&m, PLAIN);
    assert!(!q.kick_prepare());
    assert!(q.add_inbuf(1, 1, Token::new(1), DescriptorLayout::Direct).is_ok());
    assert!(q.kick_prepare());
    assert!(!q.kick_prepare());
    m.put_u16(USED, 1);
    assert!(q.add_inbuf(1, 1, Token::new(1), DescriptorLayout::Direct).is_ok());
    assert!(!q.kick_prepare());
    assert_eq!(q.notification_data(), 0x0002_0003);
}

#[test]
fn device_is_notified_at_its_event_index() {
    let avail_event = USED + 4 + 64;
    let m = Shared::new();
    let mut q = queue_of_8(&m, EVENTS);
    for (event, wanted) in [(0, true), (1, true), (4, false), (3, true)] {
        m.put_u16(avail_event, event);
        assert!(q.add_inbuf(1, 1, Token::new(1), DescriptorLayout::Direct).is_ok());
        assert_eq!(q.kick_prepare(), wanted);
    }
    m.put_u16(avail_event, 5);
    for _ in 0..3 {
        assert!(q.add_inbuf(1, 1, Token::new(1), DescriptorLayout::Direct).is_ok());
    }
    assert!(q.kick_prepare());
}

#[test]
fn callbacks_are_switched_by_flags() {
    let m = Shared::new();
    let mut q = queue_of_8(&m, PLAIN);
    q.disable_cb();
    assert_eq!(m.u16_at(AVAIL), 1);
    assert!(q.enable_cb());
    assert_eq!(m.u16_at(AVAIL), 0);
    assert!(q.add_inbuf(1, 1, Token::new(1), DescriptorLayout::Direct).is_ok());
    use_buffer(&m, 8, USED, 0, 0);
    assert!(!q.enable_cb());
    assert!(!q.enable_cb_delayed());
}

#[test]
fn callbacks_are_switched_by_event_index() {
    let used_event = AVAIL + 4 + 16;
    let m = Shared::new();
    let mut q = queue_of_8(&m, EVENTS);
    q.disable_cb();
    assert_eq!(m.u16_at(used_event), 0xffff);
    assert!(q.enable_cb());
    assert_eq!(m.u16_at(used_event), 0);
    for _ in 0..8 {
        assert!(q.add_inbuf(1, 1, Token::new(1), DescriptorLayout::Direct).is_ok());
    }
    assert!(q.enable_cb_delayed());
    assert_eq!(m.u16_at(used_event), 6);
    for id in 0..6 {
        use_buffer(&m, 8, USED, id, 0);
    }
    assert!(q.enable_cb_after(6));
    assert!(!q.enable_cb_after(5));
    assert!(!q.enable_cb());
    assert_eq!(q.get_buf(), Ok(Some((Token::new(1), 0))));
    assert_eq!(m.u16_at(used_event), 1);
    q.disable_cb();
    assert_eq!(m.u16_at(used_event), 0);
    m.take_log();
    assert_eq!(q.get_buf(), Ok(Some((Token::new(1), 0))));
    assert_eq!(m.u16_at(used_event), 0);
    assert_eq!(m.take_log(), vec!["rmb"]);
    assert!(!q.enable_cb_after(1));
    assert_eq!(q.get_buf(), Ok(Some((Token::new(1), 0))));
    assert_eq!(m.u16_at(used_event), 3);
    q.disable_cb();
    assert_eq!(m.u16_at(used_event), 2);
    while q.take_outstanding_token().is_some() {}
    assert_eq!(q.reset_virtqueue_state(), Ok(()));
    assert!(q.add_inbuf(1, 1, Token::new(1), DescriptorLayout::Direct).is_ok());
    use_buffer(&m, 8, USED, 0, 0);
    assert_eq!(q.get_buf(), Ok(Some((Token::new(1), 0))));
    assert_eq!(m.u16_at(used_event), 1);
}

#[test]
fn callbacks_stay_off_until_they_are_enabled() {
    let used_event = AVAIL + 4 + 16;
    let m = Shared::new();
    let mut q = queue_of_8(&m, EVENTS);
    q.disable_cb();
    for i in 0..20 {
        assert!(q.add_inbuf(1, 1, Token::new(i), DescriptorLayout::Direct).is_ok());
        q.kick_prepare();
        use_buffer(&m, 8, USED, 0, 0);
        assert_eq!(q.get_buf(), Ok(Some((Token::new(i), 0))));
        assert_eq!(q.get_buf(), Ok(None));
        assert_eq!(m.u16_at(used_event), 0xffff);
    }
    assert!(q.enable_cb());
    assert_eq!(m.u16_at(used_event), 20);
}

#[test]
fn queue_stays_the_same_and_broken_until_reset() {
    let m = Shared::new();
    let mut q = queue_of_8(&m, PLAIN);
    let layout = DescriptorLayout::DirectThenIndirect { indirect_from: 1 };
    assert!(q.add(&[read(1, 1), read(2, 1)], Token::new(1), layout).is_ok());
    use_buffer(&m, 8, USED, 5, 0);
    assert_eq!(q.get_buf(), Err(VirtQueueError::CorruptedDescriptor));
    q.disable_cb();
    q.enable_cb();
    assert!(!q.kick_prepare());
    assert_eq!(q.reset_virtqueue_state(), Err(VirtQueueError::QueueNotEmpty));
    assert_eq!(q.take_outstanding_token(), Some(Token::new(1)));
    assert!(q.is_broken());
    assert_eq!(q.reset_virtqueue_state(), Ok(()));
    assert!(!q.is_broken());
    assert_eq!(q.queue_index(), 3);
    assert_eq!(q.size(), 8);
    assert_eq!(q.descriptor_dma_addr().unwrap(), DMA);
    assert_eq!(q.driver_area_dma_addr().unwrap(), DMA + AVAIL as u64);
    assert_eq!(q.device_area_dma_addr().unwrap(), DMA + USED as u64);
}

#[test]
fn detaching_drains_the_queue() {
    let m = Shared::new();
    let mut q = queue_of_8(&m, PLAIN);
    assert!(q.add(&[read(1, 1), read(2, 1)], Token::new(1), DescriptorLayout::Direct).is_ok());
    assert!(q.add(&[read(1, 1), read(2, 1)], Token::new(2), DescriptorLayout::Indirect).is_ok());
    assert_eq!(q.reset_virtqueue_state(), Err(VirtQueueError::QueueNotEmpty));
    assert_eq!(q.detach_unused(), Ok(Some(Token::new(1))));
    assert_eq!(m.u16_at(AVAIL + 2), 1);
    assert_eq!(q.detach_unused(), Ok(Some(Token::new(2))));
    assert_eq!(m.u16_at(AVAIL + 2), 0);
    assert_eq!(q.detach_unused(), Ok(None));
    assert_eq!(m.live_regions(), 1);
    assert!(q.is_empty());
    assert_eq!(q.reset_virtqueue_state(), Ok(()));
}

#[test]
fn taking_a_token_frees_its_chain() {
    let m = Shared::new();
    let mut q = queue_of_8(&m, PLAIN);
    let layout = DescriptorLayout::DirectThenIndirect { indirect_from: 1 };
    let segments = [read(1, 1), read(2, 1), write(3, 1)];
    assert!(q.add(&segments, Token::new(1), DescriptorLayout::Direct).is_ok());
    assert!(q.add(&segments, Token::new(2), layout).is_ok());
    assert_eq!(q.num_free(), 3);
    assert_eq!(q.take_outstanding_token(), Some(Token::new(1)));
    assert_eq!(q.num_free(), 6);
    assert!(q.has_outstanding_requests());
    assert_eq!(m.live_regions(), 2);
    assert_eq!(q.take_outstanding_token(), Some(Token::new(2)));
    assert_eq!(q.num_free(), 8);
    assert_eq!(m.live_regions(), 1);
    assert_eq!(m.u16_at(AVAIL + 2), 2);
    assert_eq!(q.take_outstanding_token(), None);
}

#[test]
fn reset_clears_rings_and_frees_tables() {
    let m = Shared::new();
    let mut q = queue_of_8(&m, PLAIN);
    assert!(q.add(&[read(1, 1), read(2, 1)], Token::new(2), DescriptorLayout::Indirect).is_ok());
    m.put_u16(USED, 1);
    m.put_u16(12, 1);
    assert_eq!(q.take_outstanding_token(), Some(Token::new(2)));
    assert_eq!(q.num_free(), 7);
    assert_eq!(m.live_regions(), 2);
    assert_eq!(q.reset_virtqueue_state(), Ok(()));
    assert_eq!(m.live_regions(), 1);
    assert_eq!(m.u16_at(AVAIL + 2), 0);
    assert_eq!(m.u16_at(USED), 0);
    assert_eq!(q.num_free(), 8);
    assert!(q.add_inbuf(1, 1, Token::new(5), DescriptorLayout::Direct).is_ok());
    assert_eq!(m.u16_at(AVAIL + 4), 0);
    assert_eq!(m.u16_at(AVAIL + 2), 1);
}

#[test]
fn release_gives_all_memory_back() {
    let m = Shared::new();
    let mut q = queue_of_8(&m, PLAIN);
    assert!(q.add(&[read(1, 1), read(2, 1)], Token::new(2), DescriptorLayout::Indirect).is_ok());
    assert_eq!(m.live_regions(), 2);
    assert_eq!(m.live_blocks(), 2);
    q.release().into_inner();
    assert_eq!(m.live_regions(), 0);
    assert_eq!(m.live_blocks(), 0);
}

#[test]
fn indices_wrap_around() {
    let m = Shared::new();
    let mut q = queue_of_8(&m, EVENTS);
    for i in 0..70000usize {
        assert!(q.add_inbuf(i as u64, 1, Token::new(i), DescriptorLayout::Direct).is_ok());
        let head = m.u16_at(AVAIL + 4 + 2 * (i % 8));
        use_buffer(&m, 8, USED, head as u32, i as u32);
        assert_eq!(q.get_buf(), Ok(Some((Token::new(i), i as u32))));
    }
    assert_eq!(m.u16_at(AVAIL + 2), (70000 % 65536) as u16);
    assert_eq!(q.num_free(), 8);
}

fn tables(size: usize) -> (Vec<DescState>, Vec<DescExtra>) {
    let states = (0..size).map(|_| DescState::empty()).collect();
    let extras = (0..size).map(|_| DescExtra { next: 0 }).collect();
    (states, extras)
}

fn tabled(m: &Shared, features: VirtQueueFeatures) -> queue::VirtQueue<Shared> {
    let (states, extras) = tables(8);
    match queue::VirtQueue::new(m.clone(), 3, 8, states, extras, features) {
        Ok(q) => q,
        Err(_) => panic!("no queue"),
    }
}

#[test]
fn tables_must_have_an_entry_for_each_descriptor() {
    let m = Shared::new();
    let (states, extras) = tables(4);
    let r = queue::VirtQueue::new(m.clone(), 0, 8, states, extras, PLAIN);
    assert_eq!(queue_error(r), VirtQueueError::InvalidParam);
    let (states, extras) = tables(3);
    let r = queue::VirtQueue::new(m.clone(), 0, 3, states, extras, PLAIN);
    assert_eq!(queue_error(r), VirtQueueError::InvalidQueueSize);
    m.0.borrow_mut().short = 1;
    let (states, extras) = tables(8);
    let r = queue::VirtQueue::new(m.clone(), 0, 8, states, extras, PLAIN);
    assert_eq!(queue_error(r), VirtQueueError::MemoryAllocationFailed);
    assert_eq!(m.live_regions(), 0);
    m.0.borrow_mut().refuse_dma = true;
    let (states, extras) = tables(8);
    let r = queue::VirtQueue::new(m.clone(), 0, 8, states, extras, PLAIN);
    assert!(matches!(r, Err(Error::Hal(Errno(ENOMEM)))));
}

#[test]
fn tabled_queue_clears_its_memory() {
    let m = Shared::new();
    m.0.borrow_mut().bytes[..222].fill(0xff);
    let q = tabled(&m, PLAIN);
    assert_eq!(m.take_log(), vec!["dma_alloc", "clear"]);
    assert_eq!(m.u16_at(AVAIL + 2), 0);
    assert_eq!(m.u16_at(USED + 2), 0);
    assert_eq!(q.size(), 8);
    assert_eq!(q.queue_index(), 3);
    assert_eq!(q.descriptor_dma_addr().unwrap(), DMA);
    assert_eq!(q.driver_area_dma_addr().unwrap(), DMA + 128);
    assert_eq!(q.device_area_dma_addr().unwrap(), DMA + 152);
}

#[test]
fn tabled_queue_returns_requests() {
    let m = Shared::new();
    let mut q = tabled(&m, EVENTS);
    assert_eq!(q.get_buf(), Ok(None));
    assert_eq!(q.peek_used(), Ok(false));
    assert!(q.add(&[read(1, 1), write(2, 2)], Token::new(70), DescriptorLayout::Direct).is_ok());
    assert!(q.add_outbuf(3, 3, Token::new(71), DescriptorLayout::Direct).is_ok());
    assert!(q.add_inbuf(4, 4, Token::new(72), DescriptorLayout::Direct).is_ok());
    assert_eq!(m.desc(0, 2), (3, 3, 0, 0));
    assert_eq!(m.desc(0, 3), (4, 4, 2, 0));
    assert!(q.kick_prepare());
    assert!(!q.kick_prepare());
    use_buffer(&m, 8, USED, 0, 2);
    assert!(q.can_pop());
    assert!(q.poll(0));
    assert!(!q.poll(1));
    assert_eq!(q.peek_used(), Ok(true));
    assert_eq!(q.get_buf(), Ok(Some((Token::new(70), 2))));
    assert_eq!(m.u16_at(AVAIL + 20), 1);
    q.disable_cb();
    use_buffer(&m, 8, USED, 2, 3);
    assert_eq!(q.get_buf(), Ok(Some((Token::new(71), 3))));
    assert_eq!(m.u16_at(AVAIL + 20), 0);
    assert!(q.enable_cb());
    assert_eq!(m.u16_at(AVAIL + 20), 2);
    assert_eq!(q.num_free(), 7);
    assert!(q.has_outstanding_requests());
    assert!(q.has_free_descriptors());
}

#[test]
fn tabled_queue_goes_on_after_an_error() {
    let m = Shared::new();
    let mut q = tabled(&m, PLAIN);
    assert!(q.add_inbuf(1, 1, Token::new(1), DescriptorLayout::Direct).is_ok());
    use_buffer(&m, 8, USED, 8, 0);
    assert_eq!(q.peek_used(), Err(VirtQueueError::CorruptedDescriptor));
    assert_eq!(q.get_buf(), Err(VirtQueueError::CorruptedUsedElem));
    m.put_u32(USED + 4, 5);
    assert_eq!(q.get_buf(), Err(VirtQueueError::CorruptedDescriptor));
    m.put_u32(USED + 4, 0);
    for i in 0..8 {
        m.put_u16(16 * i + 12, 1);
    }
    assert_eq!(q.get_buf(), Err(VirtQueueError::CorruptedDescriptor));
    m.put_u16(12, 2);
    assert_eq!(q.get_buf(), Ok(Some((Token::new(1), 0))));
    assert_eq!(q.num_free(), 8);
}

#[test]
fn tabled_queue_tells_whether_it_can_recycle() {
    let m = Shared::new();
    let mut q = tabled(&m, PLAIN);
    assert!(q.can_recycle());
    loop {
        assert!(q.add_inbuf(1, 1, Token::new(1), DescriptorLayout::Direct).is_ok());
        if !q.can_recycle() {
            break;
        }
        for i in 0..7 {
            m.put_u16(16 * i + 12, 1);
        }
        let free = q.num_free();
        use_buffer(&m, 8, USED, 0, 0);
        assert_eq!(q.get_buf(), Ok(Some((Token::new(1), 0))));
        assert_eq!(q.num_free(), free + 8);
        assert!(q.can_recycle());
    }
    assert!(q.num_free() > u16::MAX - 8);
}

#[test]
fn tabled_queue_bounds_the_whole_chain() {
    let m = Shared::new();
    let mut q = tabled(&m, PLAIN);
    let segments: Vec<DmaSegment> = (0..8).map(|i| read(i, 1)).collect();
    let layout = DescriptorLayout::DirectThenIndirect { indirect_from: 1 };
    let r = q.add(&segments, Token::new(1), layout);
    assert_eq!(queue_error(r), VirtQueueError::InvalidParam);
    for indirect_from in [0, 2, 3] {
        let layout = DescriptorLayout::DirectThenIndirect { indirect_from };
        let r = q.add(&segments[..2], Token::new(1), layout);
        assert_eq!(queue_error(r), VirtQueueError::InvalidParam);
    }
    assert!(q.add(&segments[..6], Token::new(2), DescriptorLayout::Direct).is_ok());
    let two = DescriptorLayout::DirectThenIndirect { indirect_from: 2 };
    m.take_log();
    let r = q.add(&segments[..3], Token::new(1), two);
    assert_eq!(queue_error(r), VirtQueueError::QueueFull);
    assert!(m.take_log().is_empty());
    assert_eq!(q.num_free(), 2);
    use_buffer(&m, 8, USED, 0, 0);
    assert_eq!(q.get_buf(), Ok(Some((Token::new(2), 0))));
    assert!(q.add(&segments[..7], Token::new(1), layout).is_ok());
    assert_eq!(q.num_free(), 6);
}

#[test]
fn tabled_queue_switches_callbacks() {
    let used_event = AVAIL + 20;
    let m = Shared::new();
    let mut q = tabled(&m, EVENTS);
    q.disable_cb();
    assert_eq!(m.u16_at(used_event), 0xffff);
    assert_eq!(q.enable_cb_prepare(), 0);
    assert_eq!(m.u16_at(used_event), 0);
    assert!(q.enable_cb());
    assert!(q.add_inbuf(1, 1, Token::new(1), DescriptorLayout::Direct).is_ok());
    use_buffer(&m, 8, USED, 0, 0);
    assert!(!q.enable_cb());
}

#[test]
fn tabled_queue_is_drained_and_reset() {
    let m = Shared::new();
    let mut q = tabled(&m, PLAIN);
    assert!(q.add(&[read(1, 1), read(2, 1)], Token::new(2), DescriptorLayout::Indirect).is_ok());
    assert_eq!(q.reset_virtqueue_state(), Err(VirtQueueError::QueueNotEmpty));
    assert_eq!(q.detach_unused(), Ok(Some(Token::new(2))));
    assert_eq!(q.detach_unused(), Ok(None));
    assert_eq!(m.u16_at(AVAIL + 2), 0);
    assert_eq!(q.reset_virtqueue_state(), Ok(()));
    assert!(q.add(&[read(1, 1), read(2, 1)], Token::new(3), DescriptorLayout::Indirect).is_ok());
    q.release().into_inner();
    assert_eq!(m.live_regions(), 0);
}

type Notify = Box<dyn Fn(u32) -> bool>;

fn configs(info: &[VirtqueueInfo<u8>]) -> Vec<QueueConfig<Notify>> {
    match transport::request_queues(true, true, true, info) {
        Ok(configs) => configs,
        Err(_) => panic!("no configs"),
    }
}

#[test]
fn transport_must_support_queues() {
    let info: [VirtqueueInfo<u8>; 1] = [VirtqueueInfo::new("requests", false, None)];
    for (a, b, c) in [(false, true, true), (true, false, true), (true, true, false)] {
        let r = transport::request_queues::<u8, Notify>(a, b, c, &info);
        assert!(matches!(r, Err(Errno(ENOTSUPP))));
    }
    let info: [VirtqueueInfo<u8>; 2] =
        [VirtqueueInfo::new("requests", false, None), VirtqueueInfo::new("events", true, None)];
    let r = transport::request_queues::<u8, Notify>(true, true, true, &info);
    assert!(matches!(r, Err(Errno(ENOTSUPP))));
    assert_eq!(transport::queue_count(2), Ok(2));
}

#[test]
fn queues_are_found() {
    let info = [VirtqueueInfo::new("in", false, Some(1)), VirtqueueInfo::new("out", false, None)];
    let mut configs = configs(&info);
    assert_eq!(configs[1].name, "out");
    configs[0].index = 4;
    configs[0].size = 8;
    configs[1].index = 5;
    configs[1].size = 16;
    let m = Shared::new();
    let hals = vec![Platform::new(m.clone()), Platform::new(m.clone())];
    let queues = match transport::create_queues(0, hals, &mut configs, &info, PLAIN) {
        Ok(queues) => queues,
        Err(_) => panic!("no queues"),
    };
    assert_eq!(configs[0].desc_addr, DMA);
    assert_eq!(configs[0].avail_addr, DMA + 128);
    assert_eq!(configs[0].used_addr, DMA + 152);
    assert_eq!(configs[1].desc_addr, DMA + 224);
    assert!(configs[0].interrupt);
    assert!(!configs[1].interrupt);

    let seen = Rc::new(RefCell::new(Vec::new()));
    let log = seen.clone();
    configs[0].notify = Some(Box::new(move |data| {
        log.borrow_mut().push(data);
        true
    }));
    let mut queues = match transport::start_queues(0, queues, &mut configs) {
        Ok(queues) => queues,
        Err(_) => panic!("no queues"),
    };
    assert_eq!(queues.len(), 2);
    assert!(!queues.is_empty());
    assert_eq!(queues.iter().filter(|q| q.is_broken()).count(), 0);
    assert!(queues.get(2).is_none());
    assert!(queues.get_mut(2).is_none());
    assert_eq!(queues.get(0).unwrap().callback(), Some(&1));
    assert_eq!(queues.get(1).unwrap().callback(), None);

    let q = queues.get_mut(0).unwrap();
    assert!(q.kick());
    assert!(seen.borrow().is_empty());
    assert_eq!(q.add_inbuf(0xabc, 64, Token::new(9)), Ok(()));
    assert!(q.kick());
    assert_eq!(*seen.borrow(), vec![0x0001_0004]);
    assert!(q.notify());
    assert_eq!(q.interrupt(), Interrupt::NotMine);
    use_buffer(&m, 8, USED, 0, 64);
    assert!(q.can_pop());
    assert_eq!(q.interrupt(), Interrupt::Call);
    assert_eq!(q.get_buf(), Ok(Some((Token::new(9), 64))));
    assert_eq!(q.get_buf(), Ok(None));

    let q = queues.get_mut(1).unwrap();
    assert!(!q.notify());
    assert!(!q.is_broken());
    assert_eq!(queues.release().len(), 2);
    assert_eq!(m.live_regions(), 0);
    assert_eq!(m.live_blocks(), 0);
}

#[test]
fn device_is_notified_once_and_only_if_it_wants() {
    let info = [VirtqueueInfo::new("in", false, Some(1))];
    let mut configs = configs(&info);
    configs[0].size = 8;
    let m = Shared::new();
    let hals = vec![Platform::new(m.clone())];
    let queues = transport::create_queues(0, hals, &mut configs, &info, PLAIN);
    let seen = Rc::new(RefCell::new(Vec::new()));
    let log = seen.clone();
    configs[0].notify = Some(Box::new(move |data| {
        log.borrow_mut().push(data);
        data != 0x0003_0000
    }));
    let queues = match queues {
        Ok(queues) => transport::start_queues(0, queues, &mut configs),
        Err(e) => Err(e),
    };
    let mut queues = match queues {
        Ok(queues) => queues,
        Err(_) => panic!("no queues"),
    };
    let q = queues.get_mut(0).unwrap();
    m.put_u16(USED, 1);
    assert_eq!(q.add_inbuf(1, 1, Token::new(9)), Ok(()));
    assert!(q.kick());
    assert!(seen.borrow().is_empty());
    m.put_u16(USED, 0);
    assert_eq!(q.add_inbuf(1, 1, Token::new(9)), Ok(()));
    assert!(q.kick());
    assert!(q.kick());
    assert_eq!(*seen.borrow(), vec![0x0002_0000]);
    assert_eq!(q.add_inbuf(1, 1, Token::new(9)), Ok(()));
    assert!(!q.notify());
    assert!(!q.notify());
    assert!(q.kick());
    assert_eq!(*seen.borrow(), vec![0x0002_0000, 0x0003_0000]);
}

#[test]
fn undelivered_notification_breaks_the_queue() {
    let info = [VirtqueueInfo::new("in", false, Some(1))];
    let mut configs = configs(&info);
    configs[0].size = 8;
    let m = Shared::new();
    let platforms = vec![Platform::new(m.clone())];
    let queues = transport::create_queues(0, platforms, &mut configs, &info, PLAIN);
    configs[0].notify = Some(Box::new(|_| false));
    let queues = match queues {
        Ok(queues) => transport::start_queues(0, queues, &mut configs),
        Err(e) => Err(e),
    };
    let mut queues = match queues {
        Ok(queues) => queues,
        Err(_) => panic!("no queues"),
    };
    let q = queues.get_mut(0).unwrap();
    assert_eq!(q.add_inbuf(1, 1, Token::new(9)), Ok(()));
    assert!(!q.kick());
    assert!(q.is_broken());
    assert!(!q.notify());
    assert_eq!(q.add_inbuf(1, 1, Token::new(9)), Err(Errno(EIO)));
    assert_eq!(q.get_buf(), Err(Errno(EIO)));
    use_buffer(&m, 8, USED, 0, 64);
    assert_eq!(q.interrupt(), Interrupt::Handled);
}

#[test]
fn queues_are_found_all_or_none() {
    let info: [VirtqueueInfo<u8>; 2] =
        [VirtqueueInfo::new("in", false, None), VirtqueueInfo::new("out", false, None)];
    for (index, size, status, e) in
        [(0x1_0000, 8, 0, EINVAL), (1, 7, 0, EINVAL), (1, 8, -19, -19), (1, 8, -5000, EINVAL)]
    {
        let m = Shared::new();
        let mut configs = configs(&info);
        configs[0].size = 8;
        configs[1].index = index;
        configs[1].size = size;
        let hals = vec![Platform::new(m.clone()), Platform::new(m.clone())];
        let r = transport::create_queues(status, hals, &mut configs, &info, PLAIN);
        match r {
            Ok(_) => panic!("queues"),
            Err((errno, hals)) => {
                assert_eq!(errno, Errno(e));
                assert_eq!(hals.len(), 2);
            }
        }
        assert_eq!(m.live_regions(), 0);
        assert_eq!(m.live_blocks(), 0);
    }

    let m = Shared::new();
    m.0.borrow_mut().refuse_dma = true;
    let mut found = configs(&info);
    found[0].size = 8;
    found[1].size = 8;
    let hals = vec![Platform::new(m.clone()), Platform::new(m.clone())];
    let r = transport::create_queues(0, hals, &mut found, &info, PLAIN);
    assert!(matches!(r, Err((Errno(ENOMEM), _))));

    let m = Shared::new();
    let hals = vec![Platform::new(m.clone()), Platform::new(m.clone())];
    let r = transport::create_queues(0, hals, &mut found, &info, PLAIN);
    assert_eq!(m.live_regions(), 2);
    let r = match r {
        Ok(queues) => transport::start_queues(-5, queues, &mut found),
        Err(e) => Err(e),
    };
    assert!(matches!(r, Err((Errno(EIO), _))));
    assert_eq!(m.live_regions(), 0);
    assert_eq!(m.live_blocks(), 0);
}

#[test]
fn interrupt_without_callback_is_handled() {
    let info: [VirtqueueInfo<u8>; 1] = [VirtqueueInfo::new("in", false, None)];
    let mut configs = configs(&info);
    configs[0].size = 8;
    let m = Shared::new();
    let r = transport::create_queues(0, vec![Platform::new(m.clone())], &mut configs, &info, PLAIN);
    let mut queues = match r {
        Ok(queues) => queues,
        Err(_) => panic!("no queues"),
    };
    let q = queues.get_mut(0).unwrap();
    assert_eq!(q.add_inbuf(1, 1, Token::new(9)), Ok(()));
    use_buffer(&m, 8, USED, 0, 64);
    assert_eq!(q.interrupt(), Interrupt::Handled);
    assert!(!q.is_broken());
}

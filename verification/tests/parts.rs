use virtio::barrier::{self, BarrierKind, Primitive, Scope};
use virtio::buffer::{
    need_event, validate_segments, BufferDirection, DescState, DmaSegment, Token,
};
use virtio::device::{Device, DeviceId, VirtioDeviceId, VirtioID, VIRTIO_DEV_ANY_ID};
use virtio::dma::{check_dma_request, check_layout, judge_dma};
use virtio::driver::ProbeStep;
use virtio::errno::{to_result, Errno, EINVAL, EIO, ENODEV, ENOMEM, ENOTSUPP};
use virtio::error::{Error, VirtQueueError};
use virtio::hal::{DmaRegion, MemoryRegion};
use virtio::hwrng::{init_status, read_status, HwRng, HwRngOptions, HwRngRegistration};
use virtio::layout::{align_up, is_power_of_two, queue_part_sizes, RingLayout};
use virtio::ring::{DescFlags, Descriptor};
use virtio::transport::{map_virtqueue_error, Teardown};
use virtio::utils::{Be16, Be32, Be64, Le16, Le32, Le64};

#[test]
fn little_endian_starts_with_the_low_byte() {
    let x = Le16::from(0x1234u16);
    assert_eq!((x.b0, x.b1), (0x34, 0x12));
    assert_eq!(u16::from(x), 0x1234);
    let x = Le32::from(0x1234_5678u32);
    assert_eq!((x.b0, x.b1, x.b2, x.b3), (0x78, 0x56, 0x34, 0x12));
    assert_eq!(x.to_cpu(), 0x1234_5678);
    assert!(x == 0x1234_5678u32);
    let x = Le64::from(0x0102_0304_0506_0708u64);
    assert_eq!((x.b0, x.b7), (8, 1));
    assert_eq!(u64::from(x), 0x0102_0304_0506_0708);
}

#[test]
fn big_endian_starts_with_the_high_byte() {
    let x = Be16::from(0x1234u16);
    assert_eq!((x.b0, x.b1), (0x12, 0x34));
    assert_eq!(x.to_cpu(), 0x1234);
    assert!(0x1234u16 == x);
    let x = Be32::from(0x1234_5678u32);
    assert_eq!((x.b0, x.b1, x.b2, x.b3), (0x12, 0x34, 0x56, 0x78));
    assert_eq!(u32::from(x), 0x1234_5678);
    let x = Be64::from(0x0102_0304_0506_0708u64);
    assert_eq!((x.b0, x.b7), (1, 8));
    assert!(x == 0x0102_0304_0506_0708u64);
}

#[test]
fn rounding_up() {
    assert_eq!(align_up(0, 16), Ok(0));
    assert_eq!(align_up(1, 16), Ok(16));
    assert_eq!(align_up(16, 16), Ok(16));
    assert_eq!(align_up(150, 4), Ok(152));
    assert_eq!(align_up(1, 0), Err(VirtQueueError::InvalidParam));
    assert_eq!(align_up(1, 12), Err(VirtQueueError::InvalidParam));
    assert_eq!(align_up(usize::MAX, 2), Err(VirtQueueError::InvalidParam));
    assert_eq!(align_up(usize::MAX, 1), Ok(usize::MAX));
    assert!(is_power_of_two(1) && is_power_of_two(4096));
    assert!(!is_power_of_two(0) && !is_power_of_two(12));
}

#[test]
fn parts_of_a_queue() {
    assert_eq!(queue_part_sizes(8), Ok((128, 22, 70)));
    assert_eq!(queue_part_sizes(0), Err(VirtQueueError::InvalidQueueSize));
    assert_eq!(queue_part_sizes(5), Err(VirtQueueError::InvalidQueueSize));
    let layout = RingLayout::new(1).unwrap();
    assert_eq!(layout.avail_offset, 16);
    assert_eq!(layout.used_offset, 24);
    assert_eq!(layout.total_size, 38);
    assert!(RingLayout::new(12).is_err());
}

#[test]
fn segments_are_validated() {
    let read = |len| DmaSegment::new(0, len, BufferDirection::DriverToDevice);
    let write = |len| DmaSegment::new(0, len, BufferDirection::DeviceToDriver);
    let invalid = Err(VirtQueueError::InvalidParam);
    assert_eq!(validate_segments(&[]), invalid);
    assert_eq!(validate_segments(&[read(0)]), Ok(()));
    assert_eq!(validate_segments(&[read(1), write(1), write(1)]), Ok(()));
    assert_eq!(validate_segments(&[write(1), read(1)]), invalid);
    assert_eq!(validate_segments(&[read(u32::MAX), write(1)]), Ok(()));
    assert_eq!(validate_segments(&[read(u32::MAX), write(2)]), invalid);
}

#[test]
fn event_is_passed_or_not() {
    assert!(need_event(0, 1, 0));
    assert!(!need_event(1, 1, 0));
    assert!(need_event(4, 6, 3));
    assert!(!need_event(2, 6, 3));
    assert!(!need_event(6, 6, 3));
    assert!(need_event(0xffff, 2, 0xfffe));
    assert!(need_event(1, 2, 0xfffe));
    assert!(!need_event(2, 2, 0xfffe));
    assert!(!need_event(5, 5, 5));
}

#[test]
fn flags_are_set_and_cleared() {
    let mut f = DescFlags::empty();
    assert_eq!(f.bits(), 0);
    f.insert(DescFlags(1));
    f.insert(DescFlags(2));
    assert_eq!(f.bits(), 3);
    assert!(f.contains(DescFlags(2)));
    assert!(!f.contains(DescFlags(4)));
    f.remove(DescFlags(1));
    assert_eq!(f.bits(), 2);
    let d = Descriptor::new(0x1_0000_0002, 3, f, 4);
    assert_eq!(d.addr.to_cpu(), 0x1_0000_0002);
    assert_eq!(d.len.to_cpu(), 3);
    assert_eq!(d.flags.to_cpu(), 2);
    assert_eq!(d.next.to_cpu(), 4);
}

#[test]
fn tokens_and_states() {
    assert_eq!(Token::new(7).value(), 7);
    assert!(!DescState::empty().is_request_head());
    let state = DescState { token: Some(Token::new(1)), indirect: None };
    assert!(state.is_request_head());
    let m: MemoryRegion<u8> = MemoryRegion::new(64, 10, 8);
    assert_eq!((m.cpu_addr(), m.size(), m.align()), (64, 10, 8));
    let e: Error<u8> = Error::from(VirtQueueError::QueueFull);
    assert!(matches!(e, Error::Queue(VirtQueueError::QueueFull)));
}

#[test]
fn status_codes() {
    assert_eq!(to_result(0), Ok(()));
    assert_eq!(to_result(3), Ok(()));
    assert_eq!(to_result(-5), Err(Errno(EIO)));
    assert_eq!(to_result(-4095), Err(Errno(-4095)));
    assert_eq!(to_result(-4096), Err(Errno(EINVAL)));
    assert_eq!(Errno::from_errno(0), Errno(EINVAL));
    assert_eq!(Errno::from_errno(-19), Errno(ENODEV));
    assert_eq!(Errno(ENOMEM).to_errno(), -12);
    assert_eq!(map_virtqueue_error(Error::Hal(Errno(ENOMEM))), Errno(ENOMEM));
    assert_eq!(map_virtqueue_error(Error::Queue(VirtQueueError::QueueFull)), Errno(EINVAL));
}

#[test]
fn barriers() {
    let system = |kind| Primitive { scope: Scope::System, kind };
    assert_eq!(barrier::mb(BarrierKind::Read), system(BarrierKind::Read));
    assert_eq!(barrier::mb(BarrierKind::Full), system(BarrierKind::Full));
    let p = barrier::dma_mb(BarrierKind::Write);
    assert_eq!(p, Primitive { scope: Scope::Dma, kind: BarrierKind::Write });
    let p = barrier::smp_wmb(true);
    assert_eq!(p, Primitive { scope: Scope::Processors, kind: BarrierKind::Write });
    assert_eq!(barrier::smp_rmb(true).kind, BarrierKind::Read);
    assert_eq!(barrier::smp_mb(true).scope, Scope::Processors);
    assert_eq!(barrier::smp_mb(false), barrier::barrier());
    assert_eq!(barrier::smp_wmb(false), barrier::barrier());
    assert_eq!(barrier::smp_rmb(false), barrier::barrier());
}

struct Fixed;

impl HwRng for Fixed {
    fn has_init() -> bool {
        true
    }

    fn has_cleanup() -> bool {
        false
    }

    fn init(&self) -> Result<(), Errno> {
        Ok(())
    }

    fn cleanup(&self) {}

    fn read(&self, buf: &mut [u8], _wait: bool) -> Result<usize, Errno> {
        buf.fill(4);
        Ok(buf.len())
    }
}

#[test]
fn random_number_generator_is_registered() {
    let options = HwRngOptions { name: "virtio_rng", quality: 1000 };
    let raw = options.into_raw::<Fixed>();
    assert_eq!(raw.name, "virtio_rng");
    assert_eq!(raw.quality, 1000);
    assert!(raw.read && raw.init && !raw.cleanup);
    let bare = options.describe(false, false);
    assert!(bare.read && !bare.init && !bare.cleanup);
    assert!(options.describe(false, true).cleanup);
    let mut buf = [0; 3];
    assert_eq!(read_status(Fixed.read(&mut buf, true)), 3);
    assert_eq!(read_status(Ok(usize::MAX)), i32::MAX);
    assert_eq!(read_status(Err(Errno(EIO))), -5);
    assert_eq!(init_status(Fixed.init()), 0);
    assert_eq!(init_status(Err(Errno(ENODEV))), -19);
    match HwRngRegistration::register(raw, 0) {
        Ok(r) => assert_eq!(r.as_raw().quality, 1000),
        Err(_) => panic!("not registered"),
    }
    assert!(matches!(HwRngRegistration::register(raw, -22), Err(Errno(EINVAL))));
}

#[test]
fn device_ids() {
    let id = DeviceId::new(VirtioID::Rng);
    assert_eq!(id.as_raw().device, 4);
    assert_eq!(id.into_raw().vendor, VIRTIO_DEV_ANY_ID);
    let id = DeviceId::new_with_vendor(VirtioID::GPU, 7);
    assert_eq!(id, DeviceId::from(VirtioDeviceId { device: 16, vendor: 7 }));
    let device = Device { id: VirtioDeviceId { device: 45, vendor: 9 } };
    assert_eq!(device.id(), DeviceId::new_with_vendor(VirtioID::SPI, 9));
    assert_eq!(device.device_id(), 45);
    assert_eq!(device.vendor_id(), 9);
}

#[test]
fn memory_requests() {
    assert_eq!(check_layout(0, 1), Ok(()));
    assert_eq!(check_layout(100, 64), Ok(()));
    assert_eq!(check_layout(100, 0), Err(Errno(EINVAL)));
    assert_eq!(check_layout(100, 24), Err(Errno(EINVAL)));
    assert_eq!(check_layout(isize::MAX as usize, 1), Ok(()));
    assert_eq!(check_layout(isize::MAX as usize, 2), Err(Errno(EINVAL)));
    assert_eq!(check_layout(usize::MAX, 16), Err(Errno(EINVAL)));
    assert_eq!(check_dma_request(1, 16), Ok(()));
    assert_eq!(check_dma_request(0, 16), Err(Errno(EINVAL)));
    assert_eq!(check_dma_request(1, 0), Err(Errno(EINVAL)));
    assert_eq!(check_dma_request(1, 3), Err(Errno(EINVAL)));
    let granted = |cpu, dma| judge_dma(100, 16, cpu, dma).result();
    assert!(matches!(granted(0, 0), Err(Errno(ENOMEM))));
    assert!(matches!(granted(8, 16), Err(Errno(EINVAL))));
    assert!(matches!(granted(16, 8), Err(Errno(EINVAL))));
    let ok = granted(32, 48);
    assert!(matches!(ok, Ok(DmaRegion { cpu_addr: 32, dma_addr: 48, size: 100 })));
}

#[test]
fn driver_is_bound() {
    let step = ProbeStep::first();
    assert_eq!(step, ProbeStep::StoreData);
    assert_eq!(step.next(Err(Errno(ENOMEM))), ProbeStep::Finish(-12));
    let step = step.next(Ok(()));
    assert_eq!(step, ProbeStep::MarkReady);
    let step = step.next(Ok(()));
    assert_eq!(step, ProbeStep::Init);
    assert_eq!(step.next(Ok(())), ProbeStep::Finish(0));
    let step = step.next(Err(Errno(EIO)));
    assert_eq!(step, ProbeStep::Remove(Errno(EIO)));
    let step = step.next(Ok(()));
    assert_eq!(step, ProbeStep::Finish(-5));
    assert_eq!(step.next(Ok(())), ProbeStep::Finish(-5));
}

#[test]
fn queues_are_taken_down() {
    let step = Teardown::first();
    assert_eq!(step, Teardown::ResetDevice);
    assert_eq!(step.next(false), Teardown::ReleaseQueues);
    let step = step.next(true);
    assert_eq!(step, Teardown::DeleteQueues);
    let step = step.next(true);
    assert_eq!(step, Teardown::ReleaseQueues);
    assert_eq!(step.next(true), Teardown::Finished);
    assert_eq!(Teardown::Finished.next(true), Teardown::Finished);
}

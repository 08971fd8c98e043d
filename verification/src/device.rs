//! What a VIRTIO device is, and who made it.
use vstd::prelude::*;

verus! {

/// Any vendor
pub const VIRTIO_DEV_ANY_ID: u32 = 0xffffffff;

/// A device id as the kernel keeps it.
#[derive(Copy, Clone, Debug, Eq, PartialEq, Structural)]
pub struct VirtioDeviceId {
    /// What the device is.
    pub device: u32,
    /// Who made it.
    pub vendor: u32,
}

/// A VIRTIO device id.
#[derive(Copy, Clone, Debug, Eq, PartialEq, Structural)]
pub struct DeviceId(pub VirtioDeviceId);

impl DeviceId {
    /// Create a new device id
    pub fn new(device: VirtioID) -> (r: Self)
        ensures
            r.0 == (VirtioDeviceId { device: device.value(), vendor: VIRTIO_DEV_ANY_ID }),
    {
        Self::new_with_vendor(device, VIRTIO_DEV_ANY_ID)
    }

    /// Create a new device id with vendor
    pub fn new_with_vendor(device: VirtioID, vendor: u32) -> (r: Self)
        ensures
            r.0 == (VirtioDeviceId { device: device.value(), vendor }),
    {
        DeviceId(VirtioDeviceId { device: device.number(), vendor })
    }

    /// Returns a reference to the underlying id.
    pub fn as_raw(&self) -> (r: &VirtioDeviceId)
        ensures
            *r == self.0,
    {
        &self.0
    }

    /// Consumes `self` and returns the underlying id.
    pub fn into_raw(self) -> (r: VirtioDeviceId)
        ensures
            r == self.0,
    {
        self.0
    }
}

impl From<VirtioDeviceId> for DeviceId {
    fn from(id: VirtioDeviceId) -> (r: Self) {
        DeviceId(id)
    }
}

impl vstd::std_specs::convert::FromSpecImpl<VirtioDeviceId> for DeviceId {
    open spec fn obeys_from_spec() -> bool {
        true
    }

    open spec fn from_spec(id: VirtioDeviceId) -> Self {
        DeviceId(id)
    }
}

/// A VIRTIO device, as far as its driver asks what it is.
#[derive(Copy, Clone, Debug, Eq, PartialEq, Structural)]
pub struct Device {
    /// The id of the device.
    pub id: VirtioDeviceId,
}

impl Device {
    /// Returns the `DeviceId` of this device.
    pub fn id(&self) -> (r: DeviceId)
        ensures
            r == DeviceId(self.id),
    {
        DeviceId::from(self.id)
    }

    /// Returns the virtio device ID.
    pub fn device_id(&self) -> (r: u32)
        ensures
            r == self.id.device,
    {
        self.id.device
    }

    /// Returns the virtio vendor ID.
    pub fn vendor_id(&self) -> (r: u32)
        ensures
            r == self.id.vendor,
    {
        self.id.vendor
    }
}

/// Virtio IDs
#[derive(Copy, Clone, Debug, Eq, PartialEq, Structural)]
pub enum VirtioID {
    /// virtio net
    Net,
    /// virtio block
    Block,
    /// virtio console
    Console,
    /// virtio rng
    Rng,
    /// virtio balloon
    Balloon,
    /// virtio ioMemory
    IOMem,
    /// virtio remote processor messaging
    RPMSG,
    /// virtio scsi
    Scsi,
    /// virtio 9p console
    NineP,
    /// virtio WLAN MAC
    Mac80211Wlan,
    /// virtio remoteproc serial link
    RPROCSerial,
    /// virtio caif
    CAIF,
    /// virtio memory balloon
    MemoryBalloon,
    /// virtio GPU
    GPU,
    /// virtio clock/timer
    Clock,
    /// virtio input
    Input,
    /// virtio vsock transport
    VSock,
    /// virtio crypto
    Crypto,
    /// virtio signal distribution device
    SignalDist,
    /// virtio pstore device
    Pstore,
    /// virtio IOMMU
    Iommu,
    /// virtio mem
    Mem,
    /// virtio sound
    Sound,
    /// virtio filesystem
    FS,
    /// virtio pmem
    PMem,
    /// virtio rpmb
    RPMB,
    /// virtio mac80211-hwsim
    Mac80211Hwsim,
    /// virtio video encoder
    VideoEncoder,
    /// virtio video decoder
    VideoDecoder,
    /// virtio SCMI
    SCMI,
    /// virtio nitro secure module
    NitroSecMod,
    /// virtio i2c adapter
    I2CAdapter,
    /// virtio watchdog
    Watchdog,
    /// virtio can
    CAN,
    /// virtio dmabuf
    DMABuf,
    /// virtio parameter server
    ParamServ,
    /// virtio audio policy
    AudioPolicy,
    /// virtio bluetooth
    BT,
    /// virtio gpio
    GPIO,
    /// virtio spi
    SPI,
}

impl VirtioID {
    /// The number of the device in the VIRTIO standard.
    pub open spec fn value(self) -> u32 {
        match self {
            VirtioID::Net => 1,
            VirtioID::Block => 2,
            VirtioID::Console => 3,
            VirtioID::Rng => 4,
            VirtioID::Balloon => 5,
            VirtioID::IOMem => 6,
            VirtioID::RPMSG => 7,
            VirtioID::Scsi => 8,
            VirtioID::NineP => 9,
            VirtioID::Mac80211Wlan => 10,
            VirtioID::RPROCSerial => 11,
            VirtioID::CAIF => 12,
            VirtioID::MemoryBalloon => 13,
            VirtioID::GPU => 16,
            VirtioID::Clock => 17,
            VirtioID::Input => 18,
            VirtioID::VSock => 19,
            VirtioID::Crypto => 20,
            VirtioID::SignalDist => 21,
            VirtioID::Pstore => 22,
            VirtioID::Iommu => 23,
            VirtioID::Mem => 24,
            VirtioID::Sound => 25,
            VirtioID::FS => 26,
            VirtioID::PMem => 27,
            VirtioID::RPMB => 28,
            VirtioID::Mac80211Hwsim => 29,
            VirtioID::VideoEncoder => 30,
            VirtioID::VideoDecoder => 31,
            VirtioID::SCMI => 32,
            VirtioID::NitroSecMod => 33,
            VirtioID::I2CAdapter => 34,
            VirtioID::Watchdog => 35,
            VirtioID::CAN => 36,
            VirtioID::DMABuf => 37,
            VirtioID::ParamServ => 38,
            VirtioID::AudioPolicy => 39,
            VirtioID::BT => 40,
            VirtioID::GPIO => 41,
            VirtioID::SPI => 45,
        }
    }

    /// Returns the number of the device in the VIRTIO standard.
    pub fn number(self) -> (r: u32)
        ensures
            r == self.value(),
    {
        match self {
            VirtioID::Net => 1,
            VirtioID::Block => 2,
            VirtioID::Console => 3,
            VirtioID::Rng => 4,
            VirtioID::Balloon => 5,
            VirtioID::IOMem => 6,
            VirtioID::RPMSG => 7,
            VirtioID::Scsi => 8,
            VirtioID::NineP => 9,
            VirtioID::Mac80211Wlan => 10,
            VirtioID::RPROCSerial => 11,
            VirtioID::CAIF => 12,
            VirtioID::MemoryBalloon => 13,
            VirtioID::GPU => 16,
            VirtioID::Clock => 17,
            VirtioID::Input => 18,
            VirtioID::VSock => 19,
            VirtioID::Crypto => 20,
            VirtioID::SignalDist => 21,
            VirtioID::Pstore => 22,
            VirtioID::Iommu => 23,
            VirtioID::Mem => 24,
            VirtioID::Sound => 25,
            VirtioID::FS => 26,
            VirtioID::PMem => 27,
            VirtioID::RPMB => 28,
            VirtioID::Mac80211Hwsim => 29,
            VirtioID::VideoEncoder => 30,
            VirtioID::VideoDecoder => 31,
            VirtioID::SCMI => 32,
            VirtioID::NitroSecMod => 33,
            VirtioID::I2CAdapter => 34,
            VirtioID::Watchdog => 35,
            VirtioID::CAN => 36,
            VirtioID::DMABuf => 37,
            VirtioID::ParamServ => 38,
            VirtioID::AudioPolicy => 39,
            VirtioID::BT => 40,
            VirtioID::GPIO => 41,
            VirtioID::SPI => 45,
        }
    }
}

/// No two kinds of device have the same number.
pub proof fn device_numbers_are_distinct(a: VirtioID, b: VirtioID)
    ensures
        a.value() == b.value() <==> a == b,
{
}

/// The numbers of the kinds of device.
pub proof fn device_numbers()
    ensures
        VirtioID::Net.value() == 1,
        VirtioID::Block.value() == 2,
        VirtioID::Console.value() == 3,
        VirtioID::Rng.value() == 4,
        VirtioID::Balloon.value() == 5,
        VirtioID::IOMem.value() == 6,
        VirtioID::RPMSG.value() == 7,
        VirtioID::Scsi.value() == 8,
        VirtioID::NineP.value() == 9,
        VirtioID::Mac80211Wlan.value() == 10,
        VirtioID::RPROCSerial.value() == 11,
        VirtioID::CAIF.value() == 12,
        VirtioID::MemoryBalloon.value() == 13,
        VirtioID::GPU.value() == 16,
        VirtioID::Clock.value() == 17,
        VirtioID::Input.value() == 18,
        VirtioID::VSock.value() == 19,
        VirtioID::Crypto.value() == 20,
        VirtioID::SignalDist.value() == 21,
        VirtioID::Pstore.value() == 22,
        VirtioID::Iommu.value() == 23,
        VirtioID::Mem.value() == 24,
        VirtioID::Sound.value() == 25,
        VirtioID::FS.value() == 26,
        VirtioID::PMem.value() == 27,
        VirtioID::RPMB.value() == 28,
        VirtioID::Mac80211Hwsim.value() == 29,
        VirtioID::VideoEncoder.value() == 30,
        VirtioID::VideoDecoder.value() == 31,
        VirtioID::SCMI.value() == 32,
        VirtioID::NitroSecMod.value() == 33,
        VirtioID::I2CAdapter.value() == 34,
        VirtioID::Watchdog.value() == 35,
        VirtioID::CAN.value() == 36,
        VirtioID::DMABuf.value() == 37,
        VirtioID::ParamServ.value() == 38,
        VirtioID::AudioPolicy.value() == 39,
        VirtioID::BT.value() == 40,
        VirtioID::GPIO.value() == 41,
        VirtioID::SPI.value() == 45,
        VIRTIO_DEV_ANY_ID == 0xffff_ffffu32,
{
}

} // verus!

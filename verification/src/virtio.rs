//! VirtIO devices over PCI: their configuration structures, and the virtqueues through which
//! the driver hands buffers to a device and takes them back.

use vstd::prelude::*;

verus! {

pub const DEVICE_STATUS_RESET: u8 = 0;
pub const DEVICE_STATUS_ACKNOWLEDGE: u8 = 1;
pub const DEVICE_STATUS_DRIVER: u8 = 2;
pub const DEVICE_STATUS_DRIVER_OK: u8 = 4;
pub const DEVICE_STATUS_FEATURES_OK: u8 = 8;
pub const DEVICE_STATUS_NEEDS_RESET: u8 = 64;
pub const DEVICE_STATUS_FAILED: u8 = 128;

/// The device supports version 1 of the specification.
pub const VIRTIO_F_VERSION_1: u32 = 0x1;

pub const VIRTIO_PCI_CAP_COMMON_CFG: u8 = 0x1;
pub const VIRTIO_PCI_CAP_NOTIFY_CFG: u8 = 0x2;
pub const VIRTIO_PCI_CAP_ISR_CFG: u8 = 0x3;
pub const VIRTIO_PCI_CAP_DEVICE_CFG: u8 = 0x4;
pub const VIRTIO_PCI_CAP_PCI_CFG: u8 = 0x5;

/// The descriptor continues in the one named by its `next` field.
pub const VIRTQ_DESC_F_NEXT: u16 = 0x1;
/// The device writes the descriptor's buffer (rather than reading it).
pub const VIRTQ_DESC_F_WRITE: u16 = 0x2;

/// A VirtIO capability in a PCI device's configuration space.
#[derive(Clone, Copy, Debug)]
pub struct VirtioPciCap {
    pub cap_vndr: u8,
    pub cap_next: u8,
    pub cap_len: u8,
    pub cfg_type: u8,
    pub bar: u8,
    pub padding: [u8; 3],
    pub offset: u32,
    pub length: u32,
}

/// A VirtIO capability, and where it lies in the configuration space.
#[derive(Clone, Copy, Debug)]
pub struct VirtioCapability {
    pub config_space_offset: u8,
    pub virtio_cap: VirtioPciCap,
}

/// The first capability of `cfg_type` among `caps`, found at the configuration space offsets
/// `offsets`.
pub fn find_capability(caps: &[VirtioPciCap], offsets: &[u8], cfg_type: u8) -> (r: Option<
    VirtioCapability,
>)
    requires
        caps@.len() == offsets@.len(),
    ensures
        r is None <==> forall|i: int| 0 <= i < caps@.len() ==> caps@[i].cfg_type != cfg_type,
        r matches Some(c) ==> exists|i: int|
            0 <= i < caps@.len() && caps@[i].cfg_type == cfg_type && c.virtio_cap == caps@[i]
                && c.config_space_offset == offsets@[i] && forall|j: int|
                0 <= j < i ==> caps@[j].cfg_type != cfg_type,
{
    let mut i: usize = 0;
    while i < caps.len()
        invariant
            i <= caps@.len(),
            caps@.len() == offsets@.len(),
            forall|j: int| 0 <= j < i ==> caps@[j].cfg_type != cfg_type,
        decreases caps@.len() - i,
    {
        if caps[i].cfg_type == cfg_type {
            return Some(VirtioCapability { config_space_offset: offsets[i], virtio_cap: caps[i] });
        }
        i = i + 1;
    }
    None
}

/// The address of a capability's structure: the address its BAR holds plus its offset.
pub fn addr_in_bar(bar_addr: u64, cap: &VirtioPciCap) -> (r: Option<u64>)
    ensures
        bar_addr + cap.offset <= u64::MAX ==> r == Some((bar_addr + cap.offset) as u64),
        bar_addr + cap.offset > u64::MAX ==> r is None,
{
    bar_addr.checked_add(cap.offset as u64)
}

/// The address at which the device is told that queue `queue_index` has new buffers: the
/// notification capability's structure plus the queue's notify offset times the multiplier.
pub fn queue_notify_addr(base_addr: u64, queue_notify_offset: u16, notify_offset_multiplier: u32) -> (r:
    Option<u64>)
    ensures
        base_addr + queue_notify_offset * notify_offset_multiplier <= u64::MAX ==> r == Some(
            (base_addr + queue_notify_offset * notify_offset_multiplier) as u64,
        ),
        base_addr + queue_notify_offset * notify_offset_multiplier > u64::MAX ==> r is None,
{
    let offset = queue_notify_offset as u64;
    let multiplier = notify_offset_multiplier as u64;
    proof {
        assert(offset * multiplier <= 0xFFFF * 0xFFFF_FFFFu64) by (nonlinear_arith)
            requires
                offset <= 0xFFFF,
                multiplier <= 0xFFFF_FFFF,
        ;
    }
    let step = offset * multiplier;
    base_addr.checked_add(step)
}

/// A write the driver makes to a device while setting it up.
#[derive(Clone, Copy, Debug, PartialEq, Eq, Structural)]
pub enum ConfigWrite {
    /// The device status register.
    DeviceStatus(u8),
    /// Whether the PCI device signals with MSI-X.
    Msix(bool),
    /// The driver feature word `select`, with the feature bits the driver understands.
    DriverFeature { select: u32, bits: u32 },
    /// Which queue the queue registers that follow speak of.
    QueueSelect(u16),
    /// The physical address of the selected queue's descriptor area.
    QueueDesc(u64),
    /// The physical address of the selected queue's driver area.
    QueueDriver(u64),
    /// The physical address of the selected queue's device area.
    QueueDevice(u64),
    /// Whether the selected queue is enabled.
    QueueEnable(u16),
}

/// The writes that take a device from reset to the point where it is told the features the
/// driver accepts: reset, MSI-X off, ACKNOWLEDGE, DRIVER, `feature_bits` in feature word 0,
/// VIRTIO_F_VERSION_1 in feature word 1, FEATURES_OK. The driver then reads the status back,
/// sets the device up, and writes DRIVER_OK.
pub fn initialize_writes(feature_bits: u32) -> (r: Vec<ConfigWrite>)
    ensures
        r@ == seq![
            ConfigWrite::DeviceStatus(DEVICE_STATUS_RESET),
            ConfigWrite::Msix(false),
            ConfigWrite::DeviceStatus(DEVICE_STATUS_ACKNOWLEDGE),
            ConfigWrite::DeviceStatus(DEVICE_STATUS_DRIVER),
            ConfigWrite::DriverFeature { select: 0, bits: feature_bits },
            ConfigWrite::DriverFeature { select: 1, bits: VIRTIO_F_VERSION_1 },
            ConfigWrite::DeviceStatus(DEVICE_STATUS_FEATURES_OK),
        ],
{
    let mut r: Vec<ConfigWrite> = Vec::new();
    r.push(ConfigWrite::DeviceStatus(DEVICE_STATUS_RESET));
    r.push(ConfigWrite::Msix(false));
    r.push(ConfigWrite::DeviceStatus(DEVICE_STATUS_ACKNOWLEDGE));
    r.push(ConfigWrite::DeviceStatus(DEVICE_STATUS_DRIVER));
    r.push(ConfigWrite::DriverFeature { select: 0, bits: feature_bits });
    r.push(ConfigWrite::DriverFeature { select: 1, bits: VIRTIO_F_VERSION_1 });
    r.push(ConfigWrite::DeviceStatus(DEVICE_STATUS_FEATURES_OK));
    assert(r@ =~= seq![
        ConfigWrite::DeviceStatus(DEVICE_STATUS_RESET),
        ConfigWrite::Msix(false),
        ConfigWrite::DeviceStatus(DEVICE_STATUS_ACKNOWLEDGE),
        ConfigWrite::DeviceStatus(DEVICE_STATUS_DRIVER),
        ConfigWrite::DriverFeature { select: 0, bits: feature_bits },
        ConfigWrite::DriverFeature { select: 1, bits: VIRTIO_F_VERSION_1 },
        ConfigWrite::DeviceStatus(DEVICE_STATUS_FEATURES_OK),
    ]);
    r
}

/// Whether the status read back after the feature negotiation shows that the device took
/// the features: it reads exactly FEATURES_OK.
pub fn features_accepted(status: u8) -> (r: bool)
    ensures
        r == (status == DEVICE_STATUS_FEATURES_OK),
{
    status == DEVICE_STATUS_FEATURES_OK
}

/// The writes that hand queue `index` its three areas, at the given physical addresses, and
/// enable it. The driver then reads the queue's size back, which must be the size it built
/// the queue with.
pub fn queue_setup_writes(index: u16, desc_area: u64, driver_area: u64, device_area: u64) -> (r: Vec<
    ConfigWrite,
>)
    ensures
        r@ == seq![
            ConfigWrite::QueueSelect(index),
            ConfigWrite::QueueDesc(desc_area),
            ConfigWrite::QueueDriver(driver_area),
            ConfigWrite::QueueDevice(device_area),
            ConfigWrite::QueueEnable(1),
        ],
{
    let mut r: Vec<ConfigWrite> = Vec::new();
    r.push(ConfigWrite::QueueSelect(index));
    r.push(ConfigWrite::QueueDesc(desc_area));
    r.push(ConfigWrite::QueueDriver(driver_area));
    r.push(ConfigWrite::QueueDevice(device_area));
    r.push(ConfigWrite::QueueEnable(1));
    assert(r@ =~= seq![
        ConfigWrite::QueueSelect(index),
        ConfigWrite::QueueDesc(desc_area),
        ConfigWrite::QueueDriver(driver_area),
        ConfigWrite::QueueDevice(device_area),
        ConfigWrite::QueueEnable(1),
    ]);
    r
}

/// The common configuration structure of a VirtIO device.
#[derive(Clone, Copy, Debug)]
pub struct VirtioPciCommonCfg {
    pub device_feature_select: u32,
    pub device_feature: u32,
    pub driver_feature_select: u32,
    pub driver_feature: u32,
    pub msix_config: u16,
    pub num_queues: u16,
    pub device_status: u8,
    pub config_generation: u8,
    pub queue_select: u16,
    pub queue_size: u16,
    pub queue_msix_vector: u16,
    pub queue_enable: u16,
    pub queue_notify_off: u16,
    pub queue_desc: u64,
    pub queue_driver: u64,
    pub queue_device: u64,
}

/// A descriptor of a virtqueue: a buffer, its length, its flags, and the descriptor that
/// follows it in a chain.
#[derive(Clone, Copy, Debug, PartialEq, Eq, Structural)]
pub struct VirtqueueDesc {
    /// The buffer's guest-physical address.
    pub addr: u64,
    pub len: u32,
    pub flags: u16,
    pub next: u16,
}

impl VirtqueueDesc {
    /// A descriptor with every field zero.
    pub fn zero() -> (r: Self)
        ensures
            r.addr == 0 && r.len == 0 && r.flags == 0 && r.next == 0,
    {
        VirtqueueDesc { addr: 0, len: 0, flags: 0, next: 0 }
    }
}

/// The descriptor table of a virtqueue.
#[derive(Clone, Debug)]
pub struct VirtqueueDescTable(pub Vec<VirtqueueDesc>);

/// An element of the used ring: the first descriptor of a chain the device is done with, and
/// how many bytes it wrote.
#[derive(Clone, Copy, Debug, PartialEq, Eq, Structural)]
pub struct VirtqueueUsedElement {
    pub id: u32,
    pub len: u32,
}

/// What to hand the device in one descriptor: a buffer for it to write, or data for it to
/// read, of `len` bytes (the size of `T` when none is given).
#[derive(Clone, Debug)]
pub enum VirtqueueMessage<T> {
    DeviceWrite,
    DeviceRead { data: T, len: Option<usize> },
}

/// The indices of the descriptors marked available, in order.
pub open spec fn free_indices(avail: Seq<bool>) -> Seq<int>
    decreases avail.len(),
{
    if avail.len() == 0 {
        Seq::empty()
    } else {
        free_indices(avail.drop_last()) + if avail.last() {
            seq![avail.len() - 1]
        } else {
            Seq::empty()
        }
    }
}

/// The free indices are the free descriptors, each once, in increasing order.
pub proof fn lemma_free_indices(avail: Seq<bool>)
    ensures
        forall|k: int| 0 <= k < free_indices(avail).len() ==> 0 <= #[trigger] free_indices(avail)[k] < avail.len()
            && avail[free_indices(avail)[k]],
        forall|k: int, l: int| 0 <= k < l < free_indices(avail).len() ==> free_indices(avail)[k] < free_indices(avail)[l],
        forall|i: int| 0 <= i < avail.len() && avail[i] ==> exists|k: int| 0 <= k < free_indices(avail).len() && free_indices(avail)[k] == i,
    decreases avail.len(),
{
    if avail.len() > 0 {
        let init = avail.drop_last();
        lemma_free_indices(init);
        assert forall|i: int| 0 <= i < avail.len() && avail[i] implies exists|k: int|
            0 <= k < free_indices(avail).len() && free_indices(avail)[k] == i by {
            if i < avail.len() - 1 {
                assert(init[i] == avail[i]);
                let k = choose|k: int| 0 <= k < free_indices(init).len() && free_indices(init)[k] == i;
                assert(free_indices(avail)[k] == i);
            } else {
                assert(free_indices(avail)[free_indices(init).len() as int] == i);
            }
        }
    }
}

/// Marking the first free descriptor in use leaves the rest free, in order.
pub(crate) proof fn lemma_take_first(avail: Seq<bool>)
    requires
        free_indices(avail).len() > 0,
    ensures
        free_indices(avail.update(free_indices(avail)[0], false)) == free_indices(avail).drop_first(),
    decreases avail.len(),
{
    let f = free_indices(avail)[0];
    let init = avail.drop_last();
    lemma_free_indices(avail);
    lemma_free_indices(init);
    if free_indices(init).len() > 0 {
        lemma_take_first(init);
        assert(avail.update(f, false).drop_last() =~= init.update(f, false));
        assert(free_indices(init)[0] == f);
    } else {
        assert(f == avail.len() - 1);
        assert(avail.update(f, false).drop_last() =~= init);
    }
    assert(free_indices(avail.update(f, false)) =~= free_indices(avail).drop_first());
}

/// `avail` with each index of `idx` set to `v`.
pub open spec fn with_marks(avail: Seq<bool>, idx: Seq<int>, v: bool) -> Seq<bool>
    decreases idx.len(),
{
    if idx.len() == 0 {
        avail
    } else {
        with_marks(avail, idx.drop_last(), v).update(idx.last(), v)
    }
}

proof fn lemma_with_marks(avail: Seq<bool>, idx: Seq<int>, v: bool)
    requires
        forall|k: int| 0 <= k < idx.len() ==> 0 <= #[trigger] idx[k] < avail.len(),
    ensures
        with_marks(avail, idx, v).len() == avail.len(),
        forall|i: int|
            0 <= i < avail.len() ==> #[trigger] with_marks(avail, idx, v)[i] == if idx.contains(i) {
                v
            } else {
                avail[i]
            },
    decreases idx.len(),
{
    if idx.len() > 0 {
        let init = idx.drop_last();
        lemma_with_marks(avail, init, v);
        assert forall|i: int| 0 <= i < avail.len() implies #[trigger] with_marks(avail, idx, v)[i]
            == if idx.contains(i) {
            v
        } else {
            avail[i]
        } by {
            if init.contains(i) {
                let k = choose|k: int| 0 <= k < init.len() && init[k] == i;
                assert(idx[k] == i);
            }
            if idx.contains(i) && i != idx.last() {
                let k = choose|k: int| 0 <= k < idx.len() && idx[k] == i;
                assert(init[k] == i);
            }
        }
    }
}

/// The descriptors of the chain that starts at `head`, following `next` until a descriptor
/// whose `next` is zero, at most `fuel` of them.
pub open spec fn chain(descs: Seq<VirtqueueDesc>, head: int, fuel: nat) -> Seq<int>
    decreases fuel,
{
    if fuel == 0 || !(0 <= head < descs.len()) {
        Seq::empty()
    } else if descs[head].next == 0 {
        seq![head]
    } else {
        seq![head] + chain(descs, descs[head].next as int, (fuel - 1) as nat)
    }
}

/// The chain that starts at `head` ends within `fuel` descriptors, each of them in the table.
pub open spec fn chain_fits(descs: Seq<VirtqueueDesc>, head: int, fuel: nat) -> bool
    decreases fuel,
{
    &&& fuel > 0
    &&& 0 <= head < descs.len()
    &&& (descs[head].next == 0 || chain_fits(descs, descs[head].next as int, (fuel - 1) as nat))
}

proof fn lemma_chain(descs: Seq<VirtqueueDesc>, head: int, fuel: nat)
    ensures
        chain(descs, head, fuel).len() <= fuel,
        forall|k: int|
            0 <= k < chain(descs, head, fuel).len() ==> 0 <= #[trigger] chain(descs, head, fuel)[k]
                < descs.len(),
    decreases fuel,
{
    if fuel > 0 && 0 <= head < descs.len() && descs[head].next != 0 {
        lemma_chain(descs, descs[head].next as int, (fuel - 1) as nat);
        let rest = chain(descs, descs[head].next as int, (fuel - 1) as nat);
        assert forall|k: int| 0 <= k < chain(descs, head, fuel).len() implies 0 <= #[trigger] chain(
            descs,
            head,
            fuel,
        )[k] < descs.len() by {
            if k > 0 {
                assert(chain(descs, head, fuel)[k] == rest[k - 1]);
            }
        }
    }
}

proof fn lemma_pushed_chain<T>(
    descs: Seq<VirtqueueDesc>,
    old_descs: Seq<VirtqueueDesc>,
    messages: Seq<VirtqueueMessage<T>>,
    free: Seq<int>,
    j: int,
)
    requires
        0 < messages.len() <= free.len(),
        0 <= j < messages.len(),
        descs.len() <= 0x10000,
        forall|a: int| 0 <= a < free.len() ==> 0 <= #[trigger] free[a] < descs.len(),
        forall|a: int, b: int| 0 <= a < b < free.len() ==> free[a] < free[b],
        forall|k: int|
            0 <= k < messages.len() ==> #[trigger] descs[free[k]] == pushed_descriptor(
                old_descs[free[k]],
                messages[k],
                next_in_chain(free, k, messages.len() as int),
            ),
        old_descs[free[messages.len() - 1]].next == 0,
    ensures
        chain(descs, free[j], (messages.len() - j) as nat) == free.subrange(j, messages.len() as int),
    decreases messages.len() - j,
{
    let n = messages.len() as int;
    assert(descs[free[j]] == pushed_descriptor(old_descs[free[j]], messages[j], next_in_chain(free, j, n)));
    if j + 1 < n {
        lemma_pushed_chain(descs, old_descs, messages, free, j + 1);
        assert(0 < free[j + 1]) by {
            assert(free[j] < free[j + 1]);
        }
        assert(descs[free[j]].next as int == free[j + 1]);
        assert(free.subrange(j, n) =~= seq![free[j]] + free.subrange(j + 1, n));
    } else {
        assert(free.subrange(j, n) =~= seq![free[j]]);
    }
}

/// The chain that `push` links reads back, from its first descriptor, as the descriptors it
/// took, in the order of the messages; provided the last of them ended its chain before (its
/// `next` was zero), since `push` leaves the last descriptor's `next` as it was.
pub proof fn law_pushed_chain_reads_back<T>(
    descs: Seq<VirtqueueDesc>,
    old_descs: Seq<VirtqueueDesc>,
    messages: Seq<VirtqueueMessage<T>>,
    free: Seq<int>,
)
    requires
        0 < messages.len() <= free.len(),
        descs.len() <= 0x10000,
        forall|a: int| 0 <= a < free.len() ==> 0 <= #[trigger] free[a] < descs.len(),
        forall|a: int, b: int| 0 <= a < b < free.len() ==> free[a] < free[b],
        forall|k: int|
            0 <= k < messages.len() ==> #[trigger] descs[free[k]] == pushed_descriptor(
                old_descs[free[k]],
                messages[k],
                next_in_chain(free, k, messages.len() as int),
            ),
        old_descs[free[messages.len() - 1]].next == 0,
    ensures
        chain(descs, free[0], messages.len()) == free.take(messages.len() as int),
{
    lemma_pushed_chain(descs, old_descs, messages, free, 0);
    assert(free.subrange(0, messages.len() as int) =~= free.take(messages.len() as int));
}

/// The length a descriptor for `m` gets.
pub open spec fn message_len<T>(m: VirtqueueMessage<T>) -> u32 {
    match m {
        VirtqueueMessage::DeviceRead { len: Some(l), .. } => l as u32,
        _ => vstd::layout::size_of::<T>() as u32,
    }
}

/// The flags a descriptor for `m` gets, before it is chained.
pub open spec fn message_flags<T>(m: VirtqueueMessage<T>) -> u16 {
    match m {
        VirtqueueMessage::DeviceWrite => VIRTQ_DESC_F_WRITE,
        VirtqueueMessage::DeviceRead { .. } => 0,
    }
}

/// A descriptor once `m` is written into it, chained to `next` if there is one.
pub open spec fn pushed_descriptor<T>(
    desc: VirtqueueDesc,
    m: VirtqueueMessage<T>,
    next: Option<u16>,
) -> VirtqueueDesc {
    VirtqueueDesc {
        addr: desc.addr,
        len: message_len(m),
        flags: match next {
            Some(_) => message_flags(m) | VIRTQ_DESC_F_NEXT,
            None => message_flags(m),
        },
        next: match next {
            Some(n) => n,
            None => desc.next,
        },
    }
}

/// The buffer `b` is what `m` puts there: a clone of the data the device is to read, or a
/// default value for the device to overwrite.
pub open spec fn pushed_buffer<T: Clone + Default>(m: VirtqueueMessage<T>, b: T) -> bool {
    match m {
        VirtqueueMessage::DeviceRead { data, .. } => cloned(data, b),
        VirtqueueMessage::DeviceWrite => call_ensures(T::default, (), b),
    }
}

/// Where the `k`-th of `n` messages chains to, among the descriptors `taken`.
pub open spec fn next_in_chain(taken: Seq<int>, k: int, n: int) -> Option<u16> {
    if k + 1 < n {
        Some(taken[k + 1] as u16)
    } else {
        None
    }
}

/// A virtqueue of the driver, with the device's side of it: the descriptor table and the buffer
/// each descriptor points to, the available ring the driver fills, the used ring the device
/// fills, and which descriptors are free.
pub struct Virtqueue<T> {
    index: u16,
    descriptors: Vec<VirtqueueDesc>,
    buffers: Vec<T>,
    available_ring: Vec<u16>,
    available_idx: u16,
    used_ring: Vec<VirtqueueUsedElement>,
    used_idx: u16,
    pop_index: usize,
    notify_addr: u64,
    available_descriptors: Vec<bool>,
}

impl<T: Clone + Default> Virtqueue<T> {
    /// Every table and ring holds one element per descriptor, and there is at least one.
    pub closed spec fn wf(&self) -> bool {
        &&& self.descriptors@.len() > 0
        &&& self.descriptors@.len() <= 0x10000
        &&& self.buffers@.len() == self.descriptors@.len()
        &&& self.available_ring@.len() == self.descriptors@.len()
        &&& self.used_ring@.len() == self.descriptors@.len()
        &&& self.available_descriptors@.len() == self.descriptors@.len()
    }

    /// The number of descriptors.
    pub closed spec fn size(&self) -> nat {
        self.descriptors@.len()
    }

    /// The descriptors.
    pub closed spec fn descriptors(&self) -> Seq<VirtqueueDesc> {
        self.descriptors@
    }

    /// The buffer of each descriptor.
    pub closed spec fn buffers(&self) -> Seq<T> {
        self.buffers@
    }

    /// Which descriptors are free.
    pub closed spec fn available(&self) -> Seq<bool> {
        self.available_descriptors@
    }

    /// The available ring and its index.
    pub closed spec fn available_ring(&self) -> (Seq<u16>, u16) {
        (self.available_ring@, self.available_idx)
    }

    /// The used ring and its index.
    pub closed spec fn used_ring(&self) -> (Seq<VirtqueueUsedElement>, u16) {
        (self.used_ring@, self.used_idx)
    }

    /// How many chains the driver took back.
    pub closed spec fn popped(&self) -> nat {
        self.pop_index as nat
    }

    /// The queue's number among the device's queues.
    pub closed spec fn queue_index(&self) -> u16 {
        self.index
    }

    /// The address at which the device is notified of new buffers.
    pub closed spec fn notify_address(&self) -> u64 {
        self.notify_addr
    }

    /// A well-formed queue has at least one descriptor, and one buffer and one flag per
    /// descriptor.
    pub proof fn lemma_wf(&self)
        requires
            self.wf(),
        ensures
            0 < self.size() <= 0x10000,
            self.descriptors().len() == self.size(),
            self.buffers().len() == self.size(),
            self.available().len() == self.size(),
            self.available_ring().0.len() == self.size(),
            self.used_ring().0.len() == self.size(),
    {
    }

    /// The queue numbered `index`, whose descriptors point to buffers at `buffer_addrs`: every
    /// descriptor free, every ring empty, nothing popped.
    pub fn new(index: u16, buffer_addrs: &[u64], notify_addr: u64) -> (r: Self)
        requires
            0 < buffer_addrs@.len() <= 0x10000,
        ensures
            r.wf(),
            r.size() == buffer_addrs@.len(),
            forall|i: int| 0 <= i < r.size() ==> #[trigger] r.descriptors()[i] == (VirtqueueDesc {
                addr: buffer_addrs@[i],
                len: 0,
                flags: 0,
                next: 0,
            }),
            forall|i: int| 0 <= i < r.size() ==> #[trigger] r.available()[i],
            r.available_ring().1 == 0,
            r.used_ring().1 == 0,
            r.popped() == 0,
            r.queue_index() == index,
            r.notify_address() == notify_addr,
    {
        let n = buffer_addrs.len();
        let mut descriptors: Vec<VirtqueueDesc> = Vec::new();
        let mut buffers: Vec<T> = Vec::new();
        let mut available_ring: Vec<u16> = Vec::new();
        let mut used_ring: Vec<VirtqueueUsedElement> = Vec::new();
        let mut available_descriptors: Vec<bool> = Vec::new();
        let mut i: usize = 0;
        while i < n
            invariant
                i <= n,
                n == buffer_addrs@.len(),
                descriptors@.len() == i,
                buffers@.len() == i,
                available_ring@.len() == i,
                used_ring@.len() == i,
                available_descriptors@.len() == i,
                forall|j: int| 0 <= j < i ==> #[trigger] descriptors@[j] == (VirtqueueDesc {
                    addr: buffer_addrs@[j],
                    len: 0,
                    flags: 0,
                    next: 0,
                }),
                forall|j: int| 0 <= j < i ==> #[trigger] available_descriptors@[j],
            decreases n - i,
        {
            descriptors.push(VirtqueueDesc { addr: buffer_addrs[i], len: 0, flags: 0, next: 0 });
            buffers.push(T::default());
            available_ring.push(0);
            used_ring.push(VirtqueueUsedElement { id: 0, len: 0 });
            available_descriptors.push(true);
            i = i + 1;
        }
        Virtqueue {
            index,
            descriptors,
            buffers,
            available_ring,
            available_idx: 0,
            used_ring,
            used_idx: 0,
            pop_index: 0,
            notify_addr,
            available_descriptors,
        }
    }

    /// The queue's number.
    pub fn index(&self) -> (r: u16)
        ensures
            r == self.queue_index(),
    {
        self.index
    }

    /// Where the device is notified of new buffers.
    pub fn notify_addr(&self) -> (r: u64)
        ensures
            r == self.notify_address(),
    {
        self.notify_addr
    }

    /// Marks the first free descriptor in use, and returns it.
    fn take_descriptor(&mut self) -> (r: Option<usize>)
        requires
            old(self).wf(),
        ensures
            final(self).queue_index() == old(self).queue_index(),
            final(self).notify_address() == old(self).notify_address(),
            final(self).wf(),
            final(self).index == old(self).index,
            final(self).notify_addr == old(self).notify_addr,
            final(self).descriptors() == old(self).descriptors(),
            final(self).buffers() == old(self).buffers(),
            final(self).available_ring() == old(self).available_ring(),
            final(self).used_ring() == old(self).used_ring(),
            final(self).popped() == old(self).popped(),
            free_indices(old(self).available()).len() == 0 ==> r is None && final(self).available()
                == old(self).available(),
            free_indices(old(self).available()).len() > 0 ==> r == Some(
                free_indices(old(self).available())[0] as usize,
            ) && final(self).available() == old(self).available().update(
                free_indices(old(self).available())[0],
                false,
            ),
    {
        let mut i: usize = 0;
        while i < self.available_descriptors.len()
            invariant
                *self == *old(self),
                self.wf(),
                i <= self.available_descriptors@.len(),
                forall|j: int| 0 <= j < i ==> !self.available_descriptors@[j],
            decreases self.available_descriptors@.len() - i,
        {
            if self.available_descriptors[i] {
                proof {
                    let avail = self.available_descriptors@;
                    lemma_free_indices(avail);
                    let f = free_indices(avail);
                    let k = choose|k: int| 0 <= k < f.len() && f[k] == i;
                    if k > 0 {
                        assert(f[0] < f[k]);
                        assert(avail[f[0]]);
                    }
                    assert(f[0] == i);
                }
                self.available_descriptors.set(i, false);
                return Some(i);
            }
            i = i + 1;
        }
        proof {
            let avail = self.available_descriptors@;
            lemma_free_indices(avail);
            let f = free_indices(avail);
            if f.len() > 0 {
                assert(avail[f[0]]);
            }
        }
        None
    }

    /// Marks descriptor `desc_index` free.
    fn return_descriptor(&mut self, desc_index: usize)
        requires
            old(self).wf(),
            desc_index < old(self).size(),
        ensures
            final(self).queue_index() == old(self).queue_index(),
            final(self).notify_address() == old(self).notify_address(),
            final(self).wf(),
            final(self).index == old(self).index,
            final(self).notify_addr == old(self).notify_addr,
            final(self).available() == old(self).available().update(desc_index as int, true),
            final(self).descriptors() == old(self).descriptors(),
            final(self).buffers() == old(self).buffers(),
            final(self).available_ring() == old(self).available_ring(),
            final(self).used_ring() == old(self).used_ring(),
            final(self).popped() == old(self).popped(),
    {
        self.available_descriptors.set(desc_index, true);
    }

    /// Hands the device one chain of descriptors, one per message, linked in order: takes the
    /// first free descriptors, writes each message into its descriptor and buffer, and puts the
    /// chain's first descriptor in the available ring. Fails, changing nothing, when fewer
    /// descriptors are free than there are messages.
    #[verifier::spinoff_prover]
    #[verifier::rlimit(30)]
    pub fn push(&mut self, messages: &[VirtqueueMessage<T>]) -> (r: Result<(), ()>)
        requires
            old(self).wf(),
            0 < messages@.len() <= old(self).size(),
        ensures
            final(self).queue_index() == old(self).queue_index(),
            final(self).notify_address() == old(self).notify_address(),
            final(self).wf(),
            final(self).size() == old(self).size(),
            final(self).used_ring() == old(self).used_ring(),
            final(self).popped() == old(self).popped(),
            r is Err <==> free_indices(old(self).available()).len() < messages@.len(),
            r is Err ==> final(self).available() == old(self).available() && final(self).descriptors()
                == old(self).descriptors() && final(self).buffers() == old(self).buffers()
                && final(self).available_ring() == old(self).available_ring(),
            r is Ok ==> ({
                let free = free_indices(old(self).available());
                let n = messages@.len() as int;
                let taken = free.take(n);
                &&& forall|i: int|
                    0 <= i < old(self).size() ==> #[trigger] final(self).available()[i] == (old(self).available()[i] && !taken.contains(i))
                &&& forall|k: int|
                    0 <= k < n ==> #[trigger] final(self).descriptors()[free[k]] == pushed_descriptor(
                        old(self).descriptors()[free[k]],
                        messages@[k],
                        next_in_chain(free, k, n),
                    )
                &&& forall|k: int|
                    0 <= k < n ==> pushed_buffer(messages@[k], #[trigger] final(self).buffers()[free[k]])
                &&& forall|i: int|
                    0 <= i < old(self).size() && !taken.contains(i) ==> #[trigger] final(self).descriptors()[i] == old(self).descriptors()[i] && final(self).buffers()[i]
                        == old(self).buffers()[i]
                &&& final(self).available_ring().0 == old(self).available_ring().0.update(
                    old(self).available_ring().1 as int % old(self).size() as int,
                    free[0] as u16,
                )
                &&& final(self).available_ring().1 == (old(self).available_ring().1 + 1) % 0x10000
            }),
    {
        let n = messages.len();
        let ghost avail0 = self.available_descriptors@;
        let ghost free = free_indices(avail0);
        let ghost size = self.descriptors@.len();
        proof {
            lemma_free_indices(avail0);
        }
        let mut desc_indices: Vec<usize> = Vec::new();
        while desc_indices.len() < n
            invariant
                self.wf(),
                self.descriptors@.len() == size,
                n == messages@.len(),
                0 < n <= size,
                avail0 == old(self).available_descriptors@,
                avail0.len() == size,
                free == free_indices(avail0),
                self.index == old(self).index,
                self.notify_addr == old(self).notify_addr,
                self.descriptors@ == old(self).descriptors@,
                self.buffers@ == old(self).buffers@,
                self.available_ring@ == old(self).available_ring@,
                self.available_idx == old(self).available_idx,
                self.used_ring@ == old(self).used_ring@,
                self.used_idx == old(self).used_idx,
                self.pop_index == old(self).pop_index,
                desc_indices@.len() <= n,
                desc_indices@.len() <= free.len(),
                forall|k: int| 0 <= k < desc_indices@.len() ==> desc_indices@[k] == free[k],
                self.available_descriptors@ == with_marks(
                    avail0,
                    free.take(desc_indices@.len() as int),
                    false,
                ),
                free_indices(self.available_descriptors@) == free.skip(desc_indices@.len() as int),
            decreases n - desc_indices@.len(),
        {
            let ghost before = self.available_descriptors@;
            let ghost m = desc_indices@.len() as int;
            match self.take_descriptor() {
                Some(d) => {
                    proof {
                        lemma_free_indices(avail0);
                        lemma_free_indices(before);
                        assert(free.take(m + 1).drop_last() =~= free.take(m));
                        lemma_take_first(before);
                        assert(free.skip(m).drop_first() =~= free.skip(m + 1));
                        assert(free.skip(m)[0] == free[m]);
                        assert(d as int == free[m]);
                    }
                    desc_indices.push(d);
                },
                None => {
                    proof {
                        lemma_free_indices(avail0);
                        assert(free.take(m) =~= free);
                    }
                    let mut j: usize = 0;
                    while j < desc_indices.len()
                        invariant
                            self.wf(),
                            self.descriptors@.len() == size,
                            avail0 == old(self).available_descriptors@,
                            avail0.len() == size,
                            free == free_indices(avail0),
                            free.len() == desc_indices@.len(),
                            free.len() < n,
                            n == messages@.len(),
                            self.index == old(self).index,
                            self.notify_addr == old(self).notify_addr,
                            self.descriptors@ == old(self).descriptors@,
                            self.buffers@ == old(self).buffers@,
                            self.available_ring@ == old(self).available_ring@,
                            self.available_idx == old(self).available_idx,
                            self.used_ring@ == old(self).used_ring@,
                            self.used_idx == old(self).used_idx,
                            self.pop_index == old(self).pop_index,
                            forall|k: int| 0 <= k < desc_indices@.len() ==> desc_indices@[k] == free[k],
                            forall|k: int| 0 <= k < free.len() ==> 0 <= #[trigger] free[k] < size,
                            j <= desc_indices@.len(),
                            self.available_descriptors@ == with_marks(
                                with_marks(avail0, free, false),
                                free.take(j as int),
                                true,
                            ),
                        decreases desc_indices@.len() - j,
                    {
                        proof {
                            assert(free.take(j + 1).drop_last() =~= free.take(j as int));
                            assert(desc_indices@[j as int] == free[j as int]);
                        }
                        self.return_descriptor(desc_indices[j]);
                        j = j + 1;
                    }
                    proof {
                        lemma_free_indices(avail0);
                        assert(free.take(j as int) =~= free);
                        lemma_with_marks(avail0, free, false);
                        lemma_with_marks(with_marks(avail0, free, false), free, true);
                        assert forall|i: int| 0 <= i < size implies self.available_descriptors@[i]
                            == avail0[i] by {
                            if free.contains(i) {
                                let k = choose|k: int| 0 <= k < free.len() && free[k] == i;
                                assert(avail0[free[k]]);
                            }
                        }
                        assert(self.available_descriptors@ =~= avail0);
                    }
                    return Err(());
                },
            }
        }
        proof {
            lemma_free_indices(avail0);
        }
        let ghost taken = free.take(n as int);
        let mut k: usize = 0;
        while k < n
            invariant
                self.wf(),
                self.descriptors@.len() == size,
                n == messages@.len(),
                0 < n <= size,
                n <= free.len(),
                taken == free.take(n as int),
                avail0 == old(self).available_descriptors@,
                avail0.len() == size,
                free == free_indices(avail0),
                forall|a: int| 0 <= a < free.len() ==> 0 <= #[trigger] free[a] < size,
                forall|a: int, b: int| 0 <= a < b < free.len() ==> free[a] < free[b],
                desc_indices@.len() == n,
                forall|a: int| 0 <= a < n ==> desc_indices@[a] == free[a],
                self.available_descriptors@ == with_marks(avail0, taken, false),
                self.index == old(self).index,
                self.notify_addr == old(self).notify_addr,
                self.available_ring@ == old(self).available_ring@,
                self.available_idx == old(self).available_idx,
                self.used_ring@ == old(self).used_ring@,
                self.used_idx == old(self).used_idx,
                self.pop_index == old(self).pop_index,
                k <= n,
                forall|a: int|
                    0 <= a < k ==> #[trigger] self.descriptors@[free[a]] == pushed_descriptor(
                        old(self).descriptors@[free[a]],
                        messages@[a],
                        next_in_chain(free, a, n as int),
                    ),
                forall|a: int| 0 <= a < k ==> pushed_buffer(messages@[a], #[trigger] self.buffers@[free[a]]),
                forall|i: int|
                    0 <= i < size && !free.take(k as int).contains(i) ==> #[trigger] self.descriptors@[i]
                        == old(self).descriptors@[i] && self.buffers@[i] == old(self).buffers@[i],
            decreases n - k,
        {
            let d = desc_indices[k];
            let ghost pre_desc = self.descriptors@;
            let ghost pre_buf = self.buffers@;
            assert(d as int == free[k as int]);
            let mut desc = self.descriptors[d];
            proof {
                assert(desc == old(self).descriptors@[free[k as int]]) by {
                    if free.take(k as int).contains(free[k as int]) {
                        let a = choose|a: int| 0 <= a < k && free.take(k as int)[a] == free[k as int];
                        assert(free[a] < free[k as int]);
                    }
                }
            }
            let buffer = match &messages[k] {
                VirtqueueMessage::DeviceRead { data, len } => {
                    desc.flags = 0;
                    desc.len = match len {
                        Some(l) => *l as u32,
                        None => core::mem::size_of::<T>() as u32,
                    };
                    data.clone()
                },
                VirtqueueMessage::DeviceWrite => {
                    desc.flags = VIRTQ_DESC_F_WRITE;
                    desc.len = core::mem::size_of::<T>() as u32;
                    T::default()
                },
            };
            self.buffers.set(d, buffer);
            if k < n - 1 {
                desc.next = desc_indices[k + 1] as u16;
                desc.flags = desc.flags | VIRTQ_DESC_F_NEXT;
            }
            self.descriptors.set(d, desc);
            proof {
                assert forall|i: int|
                    0 <= i < size && !free.take(k + 1).contains(i) implies #[trigger] self.descriptors@[i]
                        == old(self).descriptors@[i] && self.buffers@[i] == old(self).buffers@[i] by {
                    assert(i != free[k as int]) by {
                        if i == free[k as int] {
                            assert(free.take(k + 1)[k as int] == i);
                            assert(free.take(k + 1).contains(i));
                        }
                    }
                    assert(!free.take(k as int).contains(i)) by {
                        if free.take(k as int).contains(i) {
                            let a = choose|a: int| 0 <= a < k && free.take(k as int)[a] == i;
                            assert(free.take(k + 1)[a] == i);
                            assert(free.take(k + 1).contains(i));
                        }
                    }
                    assert(pre_desc[i] == old(self).descriptors@[i]);
                    assert(pre_buf[i] == old(self).buffers@[i]);
                    assert(self.descriptors@[i] == pre_desc[i]);
                    assert(self.buffers@[i] == pre_buf[i]);
                }
            }
            k = k + 1;
        }
        let ring_index = self.available_idx as usize % self.available_ring.len();
        self.available_ring.set(ring_index, desc_indices[0] as u16);
        self.available_idx = if self.available_idx == 0xFFFF {
            0
        } else {
            self.available_idx + 1
        };
        proof {
            lemma_with_marks(avail0, taken, false);
            assert(free.take(n as int) =~= taken);
        }
        Ok(())
    }

    /// Takes back the next chain the device is done with, if there is one: the buffers of its
    /// descriptors in chain order, in `n` slots of which those past the chain stay empty, and
    /// marks those descriptors free.
    #[verifier::spinoff_prover]
    #[verifier::rlimit(30)]
    pub fn pop(&mut self, n: usize) -> (r: Option<Vec<Option<T>>>)
        requires
            old(self).wf(),
            old(self).popped() < usize::MAX,
            old(self).used_ring().1 as int != old(self).popped() ==> chain_fits(
                old(self).descriptors(),
                old(self).used_ring().0[old(self).popped() as int % old(self).size() as int].id as int,
                n as nat,
            ),
        ensures
            final(self).queue_index() == old(self).queue_index(),
            final(self).notify_address() == old(self).notify_address(),
            final(self).wf(),
            final(self).size() == old(self).size(),
            final(self).descriptors() == old(self).descriptors(),
            final(self).buffers() == old(self).buffers(),
            final(self).available_ring() == old(self).available_ring(),
            final(self).used_ring() == old(self).used_ring(),
            old(self).used_ring().1 as int == old(self).popped() ==> r is None && final(self).available()
                == old(self).available() && final(self).popped() == old(self).popped(),
            old(self).used_ring().1 as int != old(self).popped() ==> ({
                let head = old(self).used_ring().0[old(self).popped() as int % old(self).size() as int].id as int;
                let c = chain(old(self).descriptors(), head, n as nat);
                &&& r is Some
                &&& r->0@.len() == n
                &&& forall|k: int|
                    0 <= k < c.len() ==> (#[trigger] r->0@[k] matches Some(b) && cloned(
                        old(self).buffers()[c[k]],
                        b,
                    ))
                &&& forall|k: int| c.len() <= k < n ==> #[trigger] r->0@[k] is None
                &&& forall|i: int|
                    0 <= i < old(self).size() ==> #[trigger] final(self).available()[i] == (old(self).available()[i] || c.contains(i))
                &&& final(self).popped() == old(self).popped() + 1
            }),
    {
        let new_index = self.used_idx as usize;
        if new_index == self.pop_index {
            return None;
        }
        let element = self.used_ring[self.pop_index % self.used_ring.len()];
        let ghost descs = self.descriptors@;
        let ghost c = chain(descs, element.id as int, n as nat);
        let ghost avail0 = self.available_descriptors@;
        let ghost size = self.descriptors@.len();
        proof {
            lemma_chain(descs, element.id as int, n as nat);
        }
        let mut out: Vec<Option<T>> = Vec::new();
        let mut i: usize = 0;
        while i < n
            invariant
                i <= n,
                out@.len() == i,
                forall|k: int| 0 <= k < i ==> #[trigger] out@[k] is None,
            decreases n - i,
        {
            out.push(None);
            i = i + 1;
        }
        let mut p: usize = 0;
        let mut desc_index = element.id as usize;
        let mut done = false;
        while !done
            invariant
                self.wf(),
                size == self.descriptors@.len(),
                avail0.len() == size,
                descs == self.descriptors@,
                descs == old(self).descriptors@,
                avail0 == old(self).available_descriptors@,
                self.buffers@ == old(self).buffers@,
                self.index == old(self).index,
                self.notify_addr == old(self).notify_addr,
                self.available_ring@ == old(self).available_ring@,
                self.available_idx == old(self).available_idx,
                self.used_ring@ == old(self).used_ring@,
                self.used_idx == old(self).used_idx,
                self.pop_index == old(self).pop_index,
                c.len() <= n,
                forall|k: int| 0 <= k < c.len() ==> 0 <= #[trigger] c[k] < size,
                out@.len() == n,
                p <= c.len(),
                done ==> p == c.len(),
                !done ==> p < n && chain_fits(descs, desc_index as int, (n - p) as nat) && chain(
                    descs,
                    desc_index as int,
                    (n - p) as nat,
                ) == c.skip(p as int),
                forall|k: int|
                    0 <= k < p ==> (#[trigger] out@[k] matches Some(b) && cloned(
                        old(self).buffers@[c[k]],
                        b,
                    )),
                forall|k: int| p <= k < n ==> #[trigger] out@[k] is None,
                self.available_descriptors@ == with_marks(avail0, c.take(p as int), true),
            decreases n - p,
        {
            let ghost rest = c.skip(p as int);
            let desc = self.descriptors[desc_index];
            let buffer = self.buffers[desc_index].clone();
            out.set(p, Some(buffer));
            self.return_descriptor(desc_index);
            proof {
                assert(rest.len() > 0 && rest[0] == desc_index);
                assert(c[p as int] == rest[0]);
                assert(c.take(p + 1).drop_last() =~= c.take(p as int));
            }
            p = p + 1;
            if desc.next == 0 {
                proof {
                    assert(rest.len() == 1);
                }
                done = true;
            } else {
                proof {
                    assert(chain(descs, desc.next as int, (n - p) as nat) == rest.drop_first());
                    assert(chain_fits(descs, desc.next as int, (n - p) as nat));
                    assert(c.skip(p as int) =~= rest.drop_first());
                }
                desc_index = desc.next as usize;
            }
        }
        self.pop_index = self.pop_index + 1;
        proof {
            assert(c.take(p as int) =~= c);
            lemma_with_marks(avail0, c, true);
        }
        Some(out)
    }

    /// The device's side of the queue: it writes `data` into the buffer of descriptor
    /// `desc_index`.
    pub fn device_write(&mut self, desc_index: usize, data: T)
        requires
            old(self).wf(),
            desc_index < old(self).size(),
        ensures
            final(self).queue_index() == old(self).queue_index(),
            final(self).notify_address() == old(self).notify_address(),
            final(self).wf(),
            final(self).buffers() == old(self).buffers().update(desc_index as int, data),
            final(self).descriptors() == old(self).descriptors(),
            final(self).available() == old(self).available(),
            final(self).available_ring() == old(self).available_ring(),
            final(self).used_ring() == old(self).used_ring(),
            final(self).popped() == old(self).popped(),
    {
        self.buffers.set(desc_index, data);
    }

    /// The device's side of the queue: it hands back the chain that starts at `head`, having
    /// written `len` bytes, in the next slot of the used ring.
    pub fn device_use(&mut self, head: u32, len: u32)
        requires
            old(self).wf(),
        ensures
            final(self).queue_index() == old(self).queue_index(),
            final(self).notify_address() == old(self).notify_address(),
            final(self).wf(),
            final(self).used_ring().0 == old(self).used_ring().0.update(
                old(self).used_ring().1 as int % old(self).size() as int,
                VirtqueueUsedElement { id: head, len },
            ),
            final(self).used_ring().1 == (old(self).used_ring().1 + 1) % 0x10000,
            final(self).buffers() == old(self).buffers(),
            final(self).descriptors() == old(self).descriptors(),
            final(self).available() == old(self).available(),
            final(self).available_ring() == old(self).available_ring(),
            final(self).popped() == old(self).popped(),
    {
        let slot = self.used_idx as usize % self.used_ring.len();
        self.used_ring.set(slot, VirtqueueUsedElement { id: head, len });
        self.used_idx = if self.used_idx == 0xFFFF {
            0
        } else {
            self.used_idx + 1
        };
    }

    /// The number of descriptors.
    pub fn queue_size(&self) -> (r: usize)
        requires
            self.wf(),
        ensures
            r == self.size(),
    {
        self.descriptors.len()
    }

    /// Descriptor `i`.
    pub fn descriptor(&self, i: usize) -> (r: VirtqueueDesc)
        requires
            self.wf(),
            i < self.size(),
        ensures
            r == self.descriptors()[i as int],
    {
        self.descriptors[i]
    }

    /// Whether descriptor `i` is free.
    pub fn is_free(&self, i: usize) -> (r: bool)
        requires
            self.wf(),
            i < self.size(),
        ensures
            r == self.available()[i as int],
    {
        self.available_descriptors[i]
    }

    /// The available ring's index, and its entry `i`.
    pub fn available_entry(&self, i: usize) -> (r: (u16, u16))
        requires
            self.wf(),
            i < self.size(),
        ensures
            r == (self.available_ring().1, self.available_ring().0[i as int]),
    {
        (self.available_idx, self.available_ring[i])
    }

    /// How many chains the driver took back.
    pub fn popped_count(&self) -> (r: usize)
        ensures
            r == self.popped(),
    {
        self.pop_index
    }

    /// The used ring's index, and its entry `i`.
    pub fn used_entry(&self, i: usize) -> (r: (u16, VirtqueueUsedElement))
        requires
            self.wf(),
            i < self.size(),
        ensures
            r == (self.used_ring().1, self.used_ring().0[i as int]),
    {
        (self.used_idx, self.used_ring[i])
    }
}

} // verus!

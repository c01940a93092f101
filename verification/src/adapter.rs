//! Choosing the GPU adapter: adapters are ranked by an explicit device override,
//! then by the compositor's GPU, then by device type, then by backend, and the
//! first adapter of the best rank is chosen.
use vstd::prelude::*;

verus! {

/// The kind of device an adapter drives (`wgpu::DeviceType`).
#[derive(Clone, Copy, Debug, PartialEq, Eq)]
pub enum DeviceType {
    Other,
    IntegratedGpu,
    DiscreteGpu,
    VirtualGpu,
    Cpu,
}

/// The graphics API behind an adapter (`wgpu::Backend`).
#[derive(Clone, Copy, Debug, PartialEq, Eq)]
pub enum Backend {
    Noop,
    Vulkan,
    Metal,
    Dx12,
    Gl,
    BrowserWebGpu,
}

/// What the ranking reads of an adapter's information.
#[derive(Clone, Copy, Debug, PartialEq, Eq)]
pub struct AdapterSummary {
    pub vendor: u32,
    pub device: u32,
    pub device_type: DeviceType,
    pub backend: Backend,
}

/// The PCI vendor and device of the GPU the display server renders on.
#[derive(Clone, Copy, Debug, PartialEq, Eq)]
pub struct CompositorGpuHint {
    pub vendor_id: u32,
    pub device_id: u32,
}

/// Why no adapter could be chosen.
#[derive(Clone, Copy, Debug, PartialEq, Eq)]
pub enum AdapterSelectionError {
    /// There is no adapter at all.
    NoAdapters,
}

/// The priority of a device type: discrete, integrated, other, virtual, CPU.
pub open spec fn device_type_priority(t: DeviceType) -> u8 {
    match t {
        DeviceType::DiscreteGpu => 0,
        DeviceType::IntegratedGpu => 1,
        DeviceType::Other => 2,
        DeviceType::VirtualGpu => 3,
        DeviceType::Cpu => 4,
    }
}

/// The priority of a backend: Vulkan, Metal and Direct3D 12 before the others.
pub open spec fn backend_priority(b: Backend) -> u8 {
    match b {
        Backend::Vulkan | Backend::Metal | Backend::Dx12 => 0,
        _ => 1,
    }
}

/// An adapter's rank; lower ranks come first. A device ID of zero (reported by
/// backends such as OpenGL for every adapter) matches neither the override nor
/// the compositor hint.
pub open spec fn adapter_rank_spec(
    info: AdapterSummary,
    device_id_filter: Option<u32>,
    compositor_gpu: Option<CompositorGpuHint>,
) -> (u8, u8, u8, u8) {
    let device_known = info.device != 0;
    let user_override: u8 = match device_id_filter {
        Some(id) => if device_known && info.device == id { 0 } else { 1 },
        None => 1,
    };
    let compositor_match: u8 = match compositor_gpu {
        Some(hint) => if device_known && info.vendor == hint.vendor_id && info.device == hint.device_id {
            0
        } else {
            1
        },
        None => 1,
    };
    (user_override, compositor_match, device_type_priority(info.device_type), backend_priority(info.backend))
}

/// Lexicographic order on ranks.
pub open spec fn rank_lt(a: (u8, u8, u8, u8), b: (u8, u8, u8, u8)) -> bool {
    ||| a.0 < b.0
    ||| a.0 == b.0 && a.1 < b.1
    ||| a.0 == b.0 && a.1 == b.1 && a.2 < b.2
    ||| a.0 == b.0 && a.1 == b.1 && a.2 == b.2 && a.3 < b.3
}

/// The rank of an adapter.
pub fn adapter_rank(
    info: &AdapterSummary,
    device_id_filter: Option<u32>,
    compositor_gpu: Option<CompositorGpuHint>,
) -> (rank: (u8, u8, u8, u8))
    ensures
        rank == adapter_rank_spec(*info, device_id_filter, compositor_gpu),
{
    let device_known = info.device != 0;
    let user_override: u8 = match device_id_filter {
        Some(id) => if device_known && info.device == id { 0 } else { 1 },
        None => 1,
    };
    let compositor_match: u8 = match compositor_gpu {
        Some(hint) => if device_known && info.vendor == hint.vendor_id && info.device == hint.device_id {
            0
        } else {
            1
        },
        None => 1,
    };
    let type_priority: u8 = match info.device_type {
        DeviceType::DiscreteGpu => 0,
        DeviceType::IntegratedGpu => 1,
        DeviceType::Other => 2,
        DeviceType::VirtualGpu => 3,
        DeviceType::Cpu => 4,
    };
    let backend_priority: u8 = match info.backend {
        Backend::Vulkan => 0,
        Backend::Metal => 0,
        Backend::Dx12 => 0,
        _ => 1,
    };
    (user_override, compositor_match, type_priority, backend_priority)
}

fn rank_less(a: (u8, u8, u8, u8), b: (u8, u8, u8, u8)) -> (less: bool)
    ensures
        less == rank_lt(a, b),
{
    a.0 < b.0 || (a.0 == b.0 && (a.1 < b.1 || (a.1 == b.1 && (a.2 < b.2 || (a.2 == b.2 && a.3 < b.3)))))
}

/// The adapter to use: the first one of the best rank, which is the one that a
/// stable sort by rank puts first. Fails only when there is no adapter.
pub fn select_adapter(
    adapters: &Vec<AdapterSummary>,
    device_id_filter: Option<u32>,
    compositor_gpu: Option<CompositorGpuHint>,
) -> (chosen: Result<usize, AdapterSelectionError>)
    ensures
        match chosen {
            Ok(i) => {
                &&& i < adapters@.len()
                &&& forall|j: int| 0 <= j < adapters@.len() ==> !rank_lt(
                    adapter_rank_spec(#[trigger] adapters@[j], device_id_filter, compositor_gpu),
                    adapter_rank_spec(adapters@[i as int], device_id_filter, compositor_gpu),
                )
                &&& forall|j: int| 0 <= j < i ==> rank_lt(
                    adapter_rank_spec(adapters@[i as int], device_id_filter, compositor_gpu),
                    adapter_rank_spec(#[trigger] adapters@[j], device_id_filter, compositor_gpu),
                )
            },
            Err(e) => adapters@.len() == 0 && e == AdapterSelectionError::NoAdapters,
        },
{
    let n = adapters.len();
    if n == 0 {
        return Err(AdapterSelectionError::NoAdapters);
    }
    let mut best: usize = 0;
    let mut best_rank = adapter_rank(&adapters[0], device_id_filter, compositor_gpu);
    let mut i: usize = 1;
    while i < n
        invariant
            n == adapters@.len(),
            1 <= i <= n,
            best < i,
            best_rank == adapter_rank_spec(adapters@[best as int], device_id_filter, compositor_gpu),
            forall|j: int| 0 <= j < i ==> !rank_lt(
                adapter_rank_spec(#[trigger] adapters@[j], device_id_filter, compositor_gpu),
                best_rank,
            ),
            forall|j: int| 0 <= j < best ==> rank_lt(
                best_rank,
                adapter_rank_spec(#[trigger] adapters@[j], device_id_filter, compositor_gpu),
            ),
        decreases n - i,
    {
        let rank = adapter_rank(&adapters[i], device_id_filter, compositor_gpu);
        if rank_less(rank, best_rank) {
            best = i;
            best_rank = rank;
        }
        i = i + 1;
    }
    Ok(best)
}

/// The rank of the adapter at position `i`.
pub open spec fn rank_at(
    adapters: Seq<AdapterSummary>,
    device_id_filter: Option<u32>,
    compositor_gpu: Option<CompositorGpuHint>,
    i: int,
) -> (u8, u8, u8, u8) {
    adapter_rank_spec(adapters[i], device_id_filter, compositor_gpu)
}

proof fn lemma_rank_order(a: (u8, u8, u8, u8), b: (u8, u8, u8, u8), c: (u8, u8, u8, u8))
    ensures
        !rank_lt(a, a),
        !rank_lt(a, b) && !rank_lt(b, a) ==> a == b,
        rank_lt(a, b) && !rank_lt(c, b) ==> rank_lt(a, c),
        !rank_lt(b, a) && !rank_lt(c, b) ==> !rank_lt(c, a),
{
}

/// The positions of the adapters in the order a stable sort by rank puts them:
/// every position once, ranks never decreasing, and adapters of equal rank in the
/// order they were enumerated.
pub fn adapter_priority_order(
    adapters: &Vec<AdapterSummary>,
    device_id_filter: Option<u32>,
    compositor_gpu: Option<CompositorGpuHint>,
) -> (order: Vec<usize>)
    ensures
        order@.len() == adapters@.len(),
        forall|a: int| 0 <= a < order@.len() ==> #[trigger] order@[a] < adapters@.len(),
        order@.no_duplicates(),
        forall|a: int, b: int| 0 <= a < b < order@.len() ==> !rank_lt(
            rank_at(adapters@, device_id_filter, compositor_gpu, #[trigger] order@[b] as int),
            rank_at(adapters@, device_id_filter, compositor_gpu, #[trigger] order@[a] as int),
        ),
        forall|a: int, b: int| 0 <= a < b < order@.len() && rank_at(adapters@, device_id_filter, compositor_gpu, #[trigger] order@[a] as int)
            == rank_at(adapters@, device_id_filter, compositor_gpu, #[trigger] order@[b] as int) ==> order@[a] < order@[b],
{
    let ghost s = adapters@;
    let n = adapters.len();
    let mut order: Vec<usize> = Vec::new();
    let mut i: usize = 0;
    while i < n
        invariant
            n == s.len(),
            s == adapters@,
            i <= n,
            order@.len() == i,
            forall|a: int| 0 <= a < order@.len() ==> #[trigger] order@[a] < i,
            order@.no_duplicates(),
            forall|a: int, b: int| 0 <= a < b < order@.len() ==> !rank_lt(
                rank_at(s, device_id_filter, compositor_gpu, #[trigger] order@[b] as int),
                rank_at(s, device_id_filter, compositor_gpu, #[trigger] order@[a] as int),
            ),
            forall|a: int, b: int| 0 <= a < b < order@.len() && rank_at(s, device_id_filter, compositor_gpu, #[trigger] order@[a] as int)
                == rank_at(s, device_id_filter, compositor_gpu, #[trigger] order@[b] as int) ==> order@[a] < order@[b],
        decreases n - i,
    {
        let rank = adapter_rank(&adapters[i], device_id_filter, compositor_gpu);
        let ghost ri = rank_at(s, device_id_filter, compositor_gpu, i as int);
        assert(rank == ri);
        let mut pos: usize = 0;
        while pos < order.len()
            invariant
                pos <= order@.len(),
                order@.len() == i,
                i < n,
                n == s.len(),
                s == adapters@,
                rank == ri,
                forall|a: int| 0 <= a < order@.len() ==> #[trigger] order@[a] < i,
                forall|a: int| 0 <= a < pos ==> !rank_lt(ri, rank_at(s, device_id_filter, compositor_gpu, #[trigger] order@[a] as int)),
            ensures
                pos <= order@.len(),
                pos < order@.len() ==> rank_lt(ri, rank_at(s, device_id_filter, compositor_gpu, order@[pos as int] as int)),
                forall|a: int| 0 <= a < pos ==> !rank_lt(ri, rank_at(s, device_id_filter, compositor_gpu, #[trigger] order@[a] as int)),
            decreases order@.len() - pos,
        {
            let other = adapter_rank(&adapters[order[pos]], device_id_filter, compositor_gpu);
            if rank_less(rank, other) {
                break;
            }
            pos = pos + 1;
        }
        let ghost before = order@;
        proof {
            if pos < before.len() {
                assert(rank_lt(ri, rank_at(s, device_id_filter, compositor_gpu, before[pos as int] as int)));
            }
        }
        order.insert(pos, i);
        proof {
            assert forall|a: int| 0 <= a < order@.len() implies #[trigger] order@[a] < i + 1 by {
                if a < pos {
                    assert(order@[a] == before[a]);
                } else if a > pos {
                    assert(order@[a] == before[a - 1]);
                }
            }
            assert forall|a: int, b: int| 0 <= a < order@.len() && 0 <= b < order@.len() && a != b
                implies order@[a] != order@[b] by {
                let oa = if a < pos { a } else { a - 1 };
                let ob = if b < pos { b } else { b - 1 };
                if a != pos && b != pos {
                    assert(order@[a] == before[oa]);
                    assert(order@[b] == before[ob]);
                } else if a == pos {
                    assert(order@[b] == before[ob]);
                } else {
                    assert(order@[a] == before[oa]);
                }
            }
            assert forall|a: int, b: int| 0 <= a < b < order@.len() implies !rank_lt(
                rank_at(s, device_id_filter, compositor_gpu, #[trigger] order@[b] as int),
                rank_at(s, device_id_filter, compositor_gpu, #[trigger] order@[a] as int),
            ) && (rank_at(s, device_id_filter, compositor_gpu, order@[a] as int)
                == rank_at(s, device_id_filter, compositor_gpu, order@[b] as int) ==> order@[a] < order@[b]) by {
                let ra = rank_at(s, device_id_filter, compositor_gpu, order@[a] as int);
                let rb = rank_at(s, device_id_filter, compositor_gpu, order@[b] as int);
                if b < pos {
                    assert(order@[a] == before[a] && order@[b] == before[b]);
                } else if b == pos {
                    assert(order@[a] == before[a]);
                    assert(order@[b] == i);
                    lemma_rank_order(ri, ra, ra);
                } else if a == pos {
                    assert(order@[b] == before[b - 1]);
                    assert(order@[a] == i);
                    let rp = rank_at(s, device_id_filter, compositor_gpu, before[pos as int] as int);
                    if b - 1 > pos {
                        assert(!rank_lt(rb, rp));
                    }
                    lemma_rank_order(ri, rp, rb);
                    lemma_rank_order(rb, ri, ri);
                } else if a < pos {
                    assert(order@[a] == before[a] && order@[b] == before[b - 1]);
                } else {
                    assert(order@[a] == before[a - 1] && order@[b] == before[b - 1]);
                }
            }
        }
        i = i + 1;
    }
    order
}

/// What each part of an adapter's rank means. The first part is 0 exactly when
/// a device override is given and the adapter's device ID is that override (and
/// not zero); the second is 0 exactly when a compositor hint is given and the
/// adapter's vendor ID and device ID are both the hint's (device not zero); the
/// third orders device types discrete, integrated, other, virtual, CPU; the fourth
/// puts Vulkan, Metal and Direct3D 12 before every other backend. Every part is
/// 0 or more, and the first two are 0 or 1.
pub proof fn lemma_adapter_rank_meaning(
    info: AdapterSummary,
    device_id_filter: Option<u32>,
    compositor_gpu: Option<CompositorGpuHint>,
)
    ensures
        ({
            let r = adapter_rank_spec(info, device_id_filter, compositor_gpu);
            &&& r.0 <= 1 && r.1 <= 1
            &&& (r.0 == 0 <==> exists|id: u32| device_id_filter == Some(id) && info.device != 0 && info.device == id)
            &&& (r.1 == 0 <==> exists|h: CompositorGpuHint| compositor_gpu == Some(h) && info.device != 0
                && info.vendor == h.vendor_id && info.device == h.device_id)
            &&& (info.device_type == DeviceType::DiscreteGpu <==> r.2 == 0)
            &&& (info.device_type == DeviceType::IntegratedGpu <==> r.2 == 1)
            &&& (info.device_type == DeviceType::Other <==> r.2 == 2)
            &&& (info.device_type == DeviceType::VirtualGpu <==> r.2 == 3)
            &&& (info.device_type == DeviceType::Cpu <==> r.2 == 4)
            &&& (r.3 == 0 <==> (info.backend == Backend::Vulkan || info.backend == Backend::Metal
                || info.backend == Backend::Dx12))
            &&& r.3 <= 1
        }),
{
}

/// Of two adapters that differ only in device ID, at most one is the
/// compositor's GPU, and a hint with vendor and device IDs picks out an adapter
/// with exactly those IDs over every other adapter of the same device type and
/// backend.
pub proof fn lemma_compositor_hint_needs_vendor_and_device(
    a: AdapterSummary,
    b: AdapterSummary,
    device_id_filter: Option<u32>,
    h: CompositorGpuHint,
)
    requires
        a.device != b.device,
    ensures
        adapter_rank_spec(a, device_id_filter, Some(h)).1 == 1 || adapter_rank_spec(b, device_id_filter, Some(h)).1 == 1,
        a.device != 0 && a.vendor == h.vendor_id && a.device == h.device_id && b.device_type == a.device_type
            && b.backend == a.backend && (device_id_filter is None) ==> rank_lt(
            adapter_rank_spec(a, device_id_filter, Some(h)),
            adapter_rank_spec(b, device_id_filter, Some(h)),
        ),
{
}

/// Ranks are compared part by part, most significant first: the order is strict
/// and total, a smaller first part wins whatever follows, and each later part
/// decides only when all earlier parts are equal.
pub proof fn lemma_rank_order_is_lexicographic(a: (u8, u8, u8, u8), b: (u8, u8, u8, u8), c: (u8, u8, u8, u8))
    ensures
        !rank_lt(a, a),
        rank_lt(a, b) ==> !rank_lt(b, a),
        rank_lt(a, b) && rank_lt(b, c) ==> rank_lt(a, c),
        a != b ==> rank_lt(a, b) || rank_lt(b, a),
        a.0 < b.0 ==> rank_lt(a, b),
        a.0 == b.0 && a.1 < b.1 ==> rank_lt(a, b),
        a.0 == b.0 && a.1 == b.1 && a.2 < b.2 ==> rank_lt(a, b),
        a.0 == b.0 && a.1 == b.1 && a.2 == b.2 && a.3 < b.3 ==> rank_lt(a, b),
{
}

} // verus!

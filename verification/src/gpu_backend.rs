//! Compute backends: their kinds, their errors, the order in which they are
//! tried, the stub backend's own data, and kernel launch shapes.

use vstd::prelude::*;

use crate::text::{decimal, push_decimal, push_str};

verus! {

/// The kind of a compute backend.
#[derive(Debug, Clone, Copy, PartialEq, Eq, Structural, Hash)]
pub enum BackendKind {
    Cuda,
    OpenCL,
    Rocm,
    /// No hardware: for tests and machines without a device.
    Stub,
}

/// The name a backend kind is shown by.
pub open spec fn kind_display(k: BackendKind) -> Seq<char> {
    match k {
        BackendKind::Cuda => "CUDA"@,
        BackendKind::OpenCL => "OpenCL"@,
        BackendKind::Rocm => "ROCm/HIP"@,
        BackendKind::Stub => "Stub"@,
    }
}

/// The variant name of a backend kind.
pub open spec fn kind_variant(k: BackendKind) -> Seq<char> {
    match k {
        BackendKind::Cuda => "Cuda"@,
        BackendKind::OpenCL => "OpenCL"@,
        BackendKind::Rocm => "Rocm"@,
        BackendKind::Stub => "Stub"@,
    }
}

impl BackendKind {
    /// The name the kind is shown by: `CUDA`, `OpenCL`, `ROCm/HIP`, `Stub`.
    pub fn display_name(&self) -> (s: &'static str)
        ensures
            s@ == kind_display(*self),
    {
        proof {
            reveal_strlit("CUDA");
            reveal_strlit("OpenCL");
            reveal_strlit("ROCm/HIP");
            reveal_strlit("Stub");
        }
        match self {
            BackendKind::Cuda => "CUDA",
            BackendKind::OpenCL => "OpenCL",
            BackendKind::Rocm => "ROCm/HIP",
            BackendKind::Stub => "Stub",
        }
    }

    /// The kind's variant name, as errors show it.
    pub fn variant_name(&self) -> (s: &'static str)
        ensures
            s@ == kind_variant(*self),
    {
        proof {
            reveal_strlit("Cuda");
            reveal_strlit("OpenCL");
            reveal_strlit("Rocm");
            reveal_strlit("Stub");
        }
        match self {
            BackendKind::Cuda => "Cuda",
            BackendKind::OpenCL => "OpenCL",
            BackendKind::Rocm => "Rocm",
            BackendKind::Stub => "Stub",
        }
    }
}

/// An error of a compute backend.
#[derive(Debug)]
pub struct GpuError {
    pub backend: BackendKind,
    pub message: String,
}

impl GpuError {
    /// An error of backend `backend` with message `msg`.
    pub fn new(backend: BackendKind, msg: &str) -> (e: Self)
        ensures
            e.backend == backend,
            e.message@ == msg@,
    {
        GpuError { backend, message: String::from_str(msg) }
    }

    /// A CUDA error.
    pub fn cuda(msg: &str) -> (e: Self)
        ensures
            e.backend == BackendKind::Cuda,
            e.message@ == msg@,
    {
        Self::new(BackendKind::Cuda, msg)
    }

    /// An OpenCL error.
    pub fn opencl(msg: &str) -> (e: Self)
        ensures
            e.backend == BackendKind::OpenCL,
            e.message@ == msg@,
    {
        Self::new(BackendKind::OpenCL, msg)
    }

    /// A ROCm error.
    pub fn rocm(msg: &str) -> (e: Self)
        ensures
            e.backend == BackendKind::Rocm,
            e.message@ == msg@,
    {
        Self::new(BackendKind::Rocm, msg)
    }

    /// The error's text: the backend's variant name in brackets, then the
    /// message.
    pub fn text(&self) -> (s: String)
        ensures
            s@ == "["@ + kind_variant(self.backend) + "] "@ + self.message@,
    {
        let mut s = String::new();
        push_str(&mut s, "[");
        push_str(&mut s, self.backend.variant_name());
        push_str(&mut s, "] ");
        push_str(&mut s, self.message.as_str());
        s
    }
}

/// The direction of a memory transfer.
#[derive(Debug, Clone, Copy, PartialEq, Eq, Structural)]
pub enum TransferDir {
    HostToDevice,
    DeviceToHost,
    DeviceToDevice,
}

/// The backends tried, in order: the preferred one alone, or CUDA, ROCm,
/// OpenCL and the stub.
pub open spec fn probe_order_spec(preferred: Option<BackendKind>) -> Seq<BackendKind> {
    match preferred {
        Some(k) => seq![k],
        None => seq![BackendKind::Cuda, BackendKind::Rocm, BackendKind::OpenCL, BackendKind::Stub],
    }
}

/// The backends to try, in order.
pub fn probe_order(preferred: Option<BackendKind>) -> (r: Vec<BackendKind>)
    ensures
        r@ == probe_order_spec(preferred),
{
    let mut r = Vec::new();
    match preferred {
        Some(k) => {
            r.push(k);
        },
        None => {
            r.push(BackendKind::Cuda);
            r.push(BackendKind::Rocm);
            r.push(BackendKind::OpenCL);
            r.push(BackendKind::Stub);
        },
    }
    proof {
        assert(r@ =~= probe_order_spec(preferred));
    }
    r
}

/// Whether this build can start a backend of kind `k`: only the stub, as
/// no device backend is built in.
pub open spec fn backend_available(k: BackendKind) -> bool {
    k == BackendKind::Stub
}

/// Why backend `k` cannot be started in this build.
pub fn unavailable_reason(k: BackendKind) -> (e: Option<GpuError>)
    ensures
        e is None <==> backend_available(k),
        e matches Some(err) ==> err.backend == k,
{
    match k {
        BackendKind::Cuda => Some(GpuError::cuda("CUDA feature not compiled")),
        BackendKind::OpenCL => Some(GpuError::opencl("OpenCL feature not compiled")),
        BackendKind::Rocm => Some(GpuError::rocm("ROCm feature not compiled")),
        BackendKind::Stub => None,
    }
}

/// The message when no backend could be started for device `device_id`.
pub open spec fn no_backend_message(device_id: nat) -> Seq<char> {
    "No compute backend available for device "@ + decimal(device_id)
}

/// The backend chosen for device `device_id`: the first of the probe order
/// that this build can start, or an error of the stub kind naming the
/// device when none can.
pub fn select_backend(device_id: usize, preferred: Option<BackendKind>) -> (r: Result<BackendKind, GpuError>)
    ensures
        match r {
            Ok(k) => exists|i: int| 0 <= i < probe_order_spec(preferred).len()
                && probe_order_spec(preferred)[i] == k && backend_available(k)
                && forall|j: int| 0 <= j < i ==> !backend_available(#[trigger] probe_order_spec(preferred)[j]),
            Err(e) => (forall|i: int| 0 <= i < probe_order_spec(preferred).len()
                ==> !backend_available(#[trigger] probe_order_spec(preferred)[i]))
                && e.backend == BackendKind::Stub && e.message@ == no_backend_message(device_id as nat),
        },
{
    let order = probe_order(preferred);
    let mut k: usize = 0;
    while k < order.len()
        invariant
            0 <= k <= order@.len(),
            order@ == probe_order_spec(preferred),
            forall|j: int| 0 <= j < k ==> !backend_available(#[trigger] order@[j]),
        decreases order@.len() - k,
    {
        match unavailable_reason(order[k]) {
            None => {
                return Ok(order[k]);
            },
            Some(_) => {},
        }
        k = k + 1;
    }
    let mut msg = String::new();
    push_str(&mut msg, "No compute backend available for device ");
    push_decimal(&mut msg, device_id);
    proof {
        reveal_strlit("No compute backend available for device ");
    }
    Err(GpuError { backend: BackendKind::Stub, message: msg })
}

/// The stub backend: no hardware, transfers do nothing.  Its streams are
/// numbered from 1 in the order they are made.
pub struct StubBackend {
    device_id: usize,
    next_stream: u64,
}

impl StubBackend {
    /// The device the stub stands for.
    pub closed spec fn device(&self) -> usize {
        self.device_id
    }

    /// The number the next stream gets.
    pub closed spec fn next_stream_id(&self) -> u64 {
        self.next_stream
    }

    /// A stub for device `device_id`.
    pub fn new(device_id: usize) -> (b: Self)
        ensures
            b.device() == device_id,
            b.next_stream_id() == 1,
    {
        StubBackend { device_id, next_stream: 1 }
    }

    /// A new stream, numbered with the next number (wrapping).
    pub fn create_stream(&mut self) -> (r: Result<StubStream, GpuError>)
        ensures
            r matches Ok(s) && s.id == old(self).next_stream_id(),
            final(self).next_stream_id() == next_id(old(self).next_stream_id()),
            final(self).device() == old(self).device(),
    {
        let id = self.next_stream;
        self.next_stream = self.next_stream.wrapping_add(1);
        Ok(StubStream { id })
    }

    /// Free and total memory in bytes: the stub reports 8 GiB of each.
    pub fn memory_info(&self) -> (r: Result<(usize, usize), GpuError>)
        ensures
            r matches Ok((free, total)) && free == EIGHT_GIB as usize && total == EIGHT_GIB as usize,
    {
        Ok((EIGHT_GIB as usize, EIGHT_GIB as usize))
    }

    /// Waits for the device: the stub has nothing to wait for.
    pub fn synchronize_device(&self) -> (r: Result<(), GpuError>)
        ensures
            r is Ok,
    {
        Ok(())
    }

    /// The stub's kind.
    pub fn kind(&self) -> (k: BackendKind)
        ensures
            k == BackendKind::Stub,
    {
        BackendKind::Stub
    }

    /// The stub's device name.
    pub fn name(&self) -> (s: &'static str)
        ensures
            s@ == "Stub (no hardware)"@,
    {
        proof {
            reveal_strlit("Stub (no hardware)");
        }
        "Stub (no hardware)"
    }

    /// The device the stub stands for.
    pub fn device_id(&self) -> (d: usize)
        ensures
            d == self.device(),
    {
        self.device_id
    }

}

/// Eight gibibytes.
pub const EIGHT_GIB: u64 = 8 * 1024 * 1024 * 1024;

/// The stream number after `x`: `x + 1`, wrapping.
pub open spec fn next_id(x: u64) -> u64 {
    if x == u64::MAX {
        0
    } else {
        (x + 1) as u64
    }
}

/// A stub stream: a number and nothing else.
pub struct StubStream {
    pub id: u64,
}

/// A stub buffer: host memory standing in for device memory.
pub struct StubBuffer {
    data: Vec<u8>,
}

impl StubBuffer {
    /// `size` zero bytes.
    pub fn zeroed(size: usize) -> (b: Self)
        ensures
            b.bytes() == Seq::new(size as nat, |i: int| 0u8),
    {
        let mut data: Vec<u8> = Vec::new();
        let mut k: usize = 0;
        while k < size
            invariant
                0 <= k <= size,
                data@ == Seq::new(k as nat, |i: int| 0u8),
            decreases size - k,
        {
            data.push(0);
            proof {
                assert(data@ =~= Seq::new((k + 1) as nat, |i: int| 0u8));
            }
            k = k + 1;
        }
        StubBuffer { data }
    }

    /// The buffer's bytes.
    pub closed spec fn bytes(&self) -> Seq<u8> {
        self.data@
    }

    /// The buffer's size in bytes.
    pub fn size_bytes(&self) -> (n: usize)
        ensures
            n == self.bytes().len(),
    {
        self.data.len()
    }
}

} // verus!

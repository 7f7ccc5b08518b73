//! The decisions of talking to an OpenCL runtime: finding a device, checking each call, and the
//! sizes of buffers and launches.

use vstd::prelude::*;
use vstd::string::*;

use crate::text;
use crate::utf8;

verus! {

/// The status of a call that succeeded.
pub const CL_SUCCESS: i32 = 0;

/// The buffer flag for memory that kernels only read.
pub const CL_MEM_READ_ONLY: u64 = 4;

/// The buffer flag for memory that kernels read and write.
pub const CL_MEM_READ_WRITE: u64 = 1;

/// What is said of a call that failed.
pub open spec fn failure(err: int, what: Seq<char>) -> Seq<char> {
    "OpenCL error "@ + text::integer_text(err) + " in "@ + what
}

/// Refuses any status but success.
pub fn check(err: i32, what: &str) -> (r: Result<(), String>)
    ensures
        match r {
            Ok(_) => err == CL_SUCCESS,
            Err(m) => err != CL_SUCCESS && m@ == failure(err as int, what@),
        },
{
    if err == CL_SUCCESS {
        return Ok(());
    }
    let mut m = "OpenCL error ".to_owned();
    text::push_integer(&mut m, err);
    m.append(" in ");
    m.append(what);
    Err(m)
}

/// The name of a status.
pub open spec fn status_name(code: int) -> Seq<char> {
    if code == -1 {
        "CL_DEVICE_NOT_FOUND"@
    } else if code == -2 {
        "CL_DEVICE_NOT_AVAILABLE"@
    } else if code == -6 {
        "CL_OUT_OF_HOST_MEMORY"@
    } else if code == -30 {
        "CL_INVALID_VALUE"@
    } else if code == -38 {
        "CL_INVALID_CONTEXT"@
    } else if code == -52 {
        "CL_INVALID_KERNEL_NAME"@
    } else if code == -59 {
        "CL_INVALID_PROGRAM_EXECUTABLE"@
    } else if code == -61 {
        "CL_INVALID_KERNEL_ARGS"@
    } else if code == -62 {
        "CL_INVALID_WORK_DIMENSION"@
    } else if code == -63 {
        "CL_INVALID_WORK_GROUP_SIZE"@
    } else if code == -64 {
        "CL_INVALID_WORK_ITEM_SIZE"@
    } else if code == 0 {
        "CL_SUCCESS"@
    } else {
        "unknown"@
    }
}

/// The name of the common statuses.
pub fn err_name(code: i32) -> (r: &'static str)
    ensures
        r@ == status_name(code as int),
{
    if code == -1 {
        "CL_DEVICE_NOT_FOUND"
    } else if code == -2 {
        "CL_DEVICE_NOT_AVAILABLE"
    } else if code == -6 {
        "CL_OUT_OF_HOST_MEMORY"
    } else if code == -30 {
        "CL_INVALID_VALUE"
    } else if code == -38 {
        "CL_INVALID_CONTEXT"
    } else if code == -52 {
        "CL_INVALID_KERNEL_NAME"
    } else if code == -59 {
        "CL_INVALID_PROGRAM_EXECUTABLE"
    } else if code == -61 {
        "CL_INVALID_KERNEL_ARGS"
    } else if code == -62 {
        "CL_INVALID_WORK_DIMENSION"
    } else if code == -63 {
        "CL_INVALID_WORK_GROUP_SIZE"
    } else if code == -64 {
        "CL_INVALID_WORK_ITEM_SIZE"
    } else if code == 0 {
        "CL_SUCCESS"
    } else {
        "unknown"
    }
}

/// The bytes in front of the first zero byte, or all of them.
pub open spec fn until_zero(b: Seq<u8>) -> Seq<u8>
    decreases b.len(),
{
    if b.len() == 0 || b[0] == 0 {
        Seq::empty()
    } else {
        seq![b[0]] + until_zero(b.skip(1))
    }
}

proof fn lemma_until_zero(b: Seq<u8>, n: int)
    requires
        0 <= n <= b.len(),
        forall|i: int| 0 <= i < n ==> b[i] != 0,
        n < b.len() ==> b[n] == 0,
    ensures
        until_zero(b) == b.take(n),
    decreases b.len(),
{
    if n == 0 {
        assert(b.take(0) =~= Seq::<u8>::empty());
    } else {
        let c = b.skip(1);
        assert forall|i: int| 0 <= i < n - 1 implies c[i] != 0 by {
            assert(c[i] == b[i + 1]);
        }
        lemma_until_zero(c, n - 1);
        assert(b.take(n) =~= seq![b[0]] + c.take(n - 1));
    }
}

/// The text in a buffer that a zero byte may end.
pub fn text_in(buf: &Vec<u8>) -> (r: String)
    ensures
        r@ == utf8::lossy_text(until_zero(buf@)),
{
    let mut head: Vec<u8> = Vec::new();
    let mut i: usize = 0;
    let n: usize = buf.len();
    while i < n && buf[i] != 0
        invariant
            i <= n,
            n == buf@.len(),
            head@ == buf@.take(i as int),
            forall|k: int| 0 <= k < i ==> buf@[k] != 0,
        decreases n - i,
    {
        head.push(buf[i]);
        i += 1;
        assert(buf@.take(i as int) =~= buf@.take(i - 1).push(buf@[i - 1]));
    }
    proof {
        lemma_until_zero(buf@, i as int);
    }
    utf8::from_utf8_lossy(&head)
}

// ---- opening a device ------------------------------------------------------------------------

/// A device with the properties that matter here.
#[derive(Debug)]
pub struct DeviceInfo {
    pub name: String,
    pub compute_units: u32,
    pub max_clock_mhz: u32,
    pub local_mem: u64,
    pub global_mem: u64,
}

/// The call that opening a device makes next.
#[derive(Debug, Clone, Copy, PartialEq, Eq)]
pub enum Call {
    /// Count the platforms.
    CountPlatforms,
    /// List this many platforms.
    ListPlatforms(u32),
    /// Count the GPUs of this platform of the list.
    CountDevices(u32),
    /// Take the first GPU of this platform.
    FirstDevice(u32),
    /// Ask how long the device's name is.
    NameLength,
    /// Read the name into this many bytes.
    Name(u64),
    ComputeUnits,
    MaxClock,
    LocalMem,
    GlobalMem,
    /// Make a context of the device, on the first platform of the list.
    CreateContext,
    CreateQueue,
    /// Nothing: the device is open.
    Opened,
}

/// What a call came back with.
#[derive(Debug)]
pub struct Reply {
    pub err: i32,
    /// The handle that the call made is null.
    pub null: bool,
    /// A count, or a property of one word.
    pub word: u32,
    /// A length, or a property of two words.
    pub wide: u64,
    /// The bytes read.
    pub bytes: Vec<u8>,
}

/// Opening a device: what has been learnt, and the call to make.
#[derive(Debug)]
pub struct Opening {
    pub call: Call,
    pub n_platforms: u32,
    pub info: DeviceInfo,
}

/// What has been learnt, and the call to make, as mathematics has them.
#[verifier::ext_equal]
pub struct OpeningV {
    pub call: Call,
    pub n_platforms: u32,
    pub name: Seq<char>,
    pub compute_units: u32,
    pub max_clock_mhz: u32,
    pub local_mem: u64,
    pub global_mem: u64,
}

impl View for Opening {
    type V = OpeningV;

    open spec fn view(&self) -> OpeningV {
        OpeningV {
            call: self.call,
            n_platforms: self.n_platforms,
            name: self.info.name@,
            compute_units: self.info.compute_units,
            max_clock_mhz: self.info.max_clock_mhz,
            local_mem: self.info.local_mem,
            global_mem: self.info.global_mem,
        }
    }
}

/// Nothing learnt yet.
pub open spec fn unopened() -> OpeningV {
    OpeningV {
        call: Call::CountPlatforms,
        n_platforms: 0,
        name: Seq::empty(),
        compute_units: 0,
        max_clock_mhz: 0,
        local_mem: 0,
        global_mem: 0,
    }
}

/// The name of a call in what is said when it fails.
pub open spec fn call_name(c: Call) -> Seq<char> {
    match c {
        Call::CountPlatforms => "clGetPlatformIDs count"@,
        Call::ListPlatforms(_) => "clGetPlatformIDs"@,
        Call::CountDevices(_) | Call::FirstDevice(_) => "clGetDeviceIDs"@,
        Call::NameLength => "clGetDeviceInfo len"@,
        Call::Name(_) | Call::ComputeUnits | Call::MaxClock | Call::LocalMem | Call::GlobalMem =>
            "clGetDeviceInfo"@,
        Call::CreateContext => "clCreateContext"@,
        Call::CreateQueue | Call::Opened => "clCreateCommandQueue"@,
    }
}

/// What a call's reply leads to. A platform whose GPUs cannot be counted, or that has none, is
/// passed over; any other call that fails ends the opening.
pub open spec fn opening_next(s: OpeningV, r: Reply) -> Result<OpeningV, Seq<char>> {
    if s.call == Call::Opened {
        Ok(s)
    } else if s.call is CountDevices {
        if r.err == CL_SUCCESS && r.word > 0 {
            Ok(OpeningV { call: Call::FirstDevice(s.call->CountDevices_0), ..s })
        } else if s.call->CountDevices_0 + 1 < s.n_platforms {
            Ok(OpeningV { call: Call::CountDevices((s.call->CountDevices_0 + 1) as u32), ..s })
        } else {
            Err("no OpenCL GPU device found"@)
        }
    } else if r.err != CL_SUCCESS {
        Err(failure(r.err as int, call_name(s.call)))
    } else {
        match s.call {
            Call::CountPlatforms => if r.word == 0 {
                Err("no OpenCL platforms found"@)
            } else {
                Ok(OpeningV { call: Call::ListPlatforms(r.word), n_platforms: r.word, ..s })
            },
            Call::ListPlatforms(_) => Ok(OpeningV { call: Call::CountDevices(0), ..s }),
            Call::FirstDevice(_) => if r.null {
                Err("no OpenCL GPU device found"@)
            } else {
                Ok(OpeningV { call: Call::NameLength, ..s })
            },
            Call::NameLength => Ok(
                OpeningV {
                    call: Call::Name(
                        if r.wide == 0 {
                            1
                        } else {
                            r.wide
                        },
                    ),
                    ..s
                },
            ),
            Call::Name(_) => Ok(
                OpeningV {
                    call: Call::ComputeUnits,
                    name: utf8::lossy_text(until_zero(r.bytes@)),
                    ..s
                },
            ),
            Call::ComputeUnits => Ok(
                OpeningV { call: Call::MaxClock, compute_units: r.word, ..s },
            ),
            Call::MaxClock => Ok(OpeningV { call: Call::LocalMem, max_clock_mhz: r.word, ..s }),
            Call::LocalMem => Ok(OpeningV { call: Call::GlobalMem, local_mem: r.wide, ..s }),
            Call::GlobalMem => Ok(OpeningV { call: Call::CreateContext, global_mem: r.wide, ..s }),
            Call::CreateContext => if r.null {
                Err("clCreateContext returned null"@)
            } else {
                Ok(OpeningV { call: Call::CreateQueue, ..s })
            },
            _ => if r.null {
                Err("clCreateCommandQueue returned null"@)
            } else {
                Ok(OpeningV { call: Call::Opened, ..s })
            },
        }
    }
}

/// How many calls are left at most before the device is open or refused.
pub open spec fn calls_left(s: OpeningV) -> int {
    match s.call {
        Call::CountPlatforms => 0x1_0000_0020,
        Call::ListPlatforms(_) => 21 + s.n_platforms,
        Call::CountDevices(p) => 20 + s.n_platforms - p,
        Call::FirstDevice(_) => 10,
        Call::NameLength => 9,
        Call::Name(_) => 8,
        Call::ComputeUnits => 7,
        Call::MaxClock => 6,
        Call::LocalMem => 5,
        Call::GlobalMem => 4,
        Call::CreateContext => 3,
        Call::CreateQueue => 2,
        Call::Opened => 0,
    }
}

/// The platform asked for is one of the list.
pub open spec fn opening_wf(s: OpeningV) -> bool {
    match s.call {
        Call::CountDevices(p) | Call::FirstDevice(p) => p < s.n_platforms,
        Call::ListPlatforms(n) => n == s.n_platforms && n > 0,
        _ => true,
    }
}

/// Opening ends: every reply brings the last call nearer, and the platform asked for stays one
/// of the list.
pub proof fn law_opening_ends(s: OpeningV, r: Reply)
    requires
        opening_wf(s),
        s.call != Call::Opened,
    ensures
        opening_next(s, r) matches Ok(t) ==> opening_wf(t) && 0 <= calls_left(t) < calls_left(s),
{
}

impl Opening {
    /// Starts opening the first GPU there is.
    pub fn new() -> (r: Opening)
        ensures
            r@ == unopened(),
            opening_wf(r@),
    {
        let r = Opening {
            call: Call::CountPlatforms,
            n_platforms: 0,
            info: DeviceInfo {
                name: String::new(),
                compute_units: 0,
                max_clock_mhz: 0,
                local_mem: 0,
                global_mem: 0,
            },
        };
        assert(r@ =~= unopened());
        r
    }

    /// Goes on with what the call came back with.
    pub fn step(&mut self, reply: Reply) -> (r: Result<(), String>)
        requires
            opening_wf(old(self)@),
        ensures
            match opening_next(old(self)@, reply) {
                Ok(t) => r is Ok && final(self)@ == t && opening_wf(final(self)@),
                Err(e) => r matches Err(m) && m@ == e,
            },
    {
        match self.call {
            Call::Opened => {},
            Call::CountDevices(p) => {
                if reply.err == CL_SUCCESS && reply.word > 0 {
                    self.call = Call::FirstDevice(p);
                } else if p + 1 < self.n_platforms {
                    self.call = Call::CountDevices(p + 1);
                } else {
                    return Err("no OpenCL GPU device found".to_owned());
                }
            },
            Call::CountPlatforms => {
                check(reply.err, "clGetPlatformIDs count")?;
                if reply.word == 0 {
                    return Err("no OpenCL platforms found".to_owned());
                }
                self.n_platforms = reply.word;
                self.call = Call::ListPlatforms(reply.word);
            },
            Call::ListPlatforms(_) => {
                check(reply.err, "clGetPlatformIDs")?;
                self.call = Call::CountDevices(0);
            },
            Call::FirstDevice(_) => {
                check(reply.err, "clGetDeviceIDs")?;
                if reply.null {
                    return Err("no OpenCL GPU device found".to_owned());
                }
                self.call = Call::NameLength;
            },
            Call::NameLength => {
                check(reply.err, "clGetDeviceInfo len")?;
                self.call = Call::Name(
                    if reply.wide == 0 {
                        1
                    } else {
                        reply.wide
                    },
                );
            },
            Call::Name(_) => {
                check(reply.err, "clGetDeviceInfo")?;
                self.info.name = text_in(&reply.bytes);
                self.call = Call::ComputeUnits;
            },
            Call::ComputeUnits => {
                check(reply.err, "clGetDeviceInfo")?;
                self.info.compute_units = reply.word;
                self.call = Call::MaxClock;
            },
            Call::MaxClock => {
                check(reply.err, "clGetDeviceInfo")?;
                self.info.max_clock_mhz = reply.word;
                self.call = Call::LocalMem;
            },
            Call::LocalMem => {
                check(reply.err, "clGetDeviceInfo")?;
                self.info.local_mem = reply.wide;
                self.call = Call::GlobalMem;
            },
            Call::GlobalMem => {
                check(reply.err, "clGetDeviceInfo")?;
                self.info.global_mem = reply.wide;
                self.call = Call::CreateContext;
            },
            Call::CreateContext => {
                check(reply.err, "clCreateContext")?;
                if reply.null {
                    return Err("clCreateContext returned null".to_owned());
                }
                self.call = Call::CreateQueue;
            },
            Call::CreateQueue => {
                check(reply.err, "clCreateCommandQueue")?;
                if reply.null {
                    return Err("clCreateCommandQueue returned null".to_owned());
                }
                self.call = Call::Opened;
            },
        }
        Ok(())
    }
}

// ---- buffers and launches --------------------------------------------------------------------

/// The flags of a new buffer.
pub fn buffer_flags(read_only: bool) -> (r: u64)
    ensures
        r == if read_only {
            CL_MEM_READ_ONLY
        } else {
            CL_MEM_READ_WRITE
        },
{
    if read_only {
        CL_MEM_READ_ONLY
    } else {
        CL_MEM_READ_WRITE
    }
}

/// What is said of a write that does not fit.
pub open spec fn write_error(n: int, len: int) -> Seq<char> {
    "buffer write "@ + text::decimal(n as nat) + " > buffer "@ + text::decimal(len as nat)
}

/// Whether `n` bytes can be written to a buffer of `len_bytes`.
pub fn check_write(n: usize, len_bytes: usize) -> (r: Result<(), String>)
    ensures
        match r {
            Ok(_) => n <= len_bytes,
            Err(m) => n > len_bytes && m@ == write_error(n as int, len_bytes as int),
        },
{
    if n > len_bytes {
        let mut m = "buffer write ".to_owned();
        text::push_decimal(&mut m, n as u64);
        m.append(" > buffer ");
        text::push_decimal(&mut m, len_bytes as u64);
        return Err(m);
    }
    Ok(())
}

/// Whether `n` bytes can be read from a buffer of `len_bytes`.
pub fn check_read(n: usize, len_bytes: usize) -> (r: Result<(), String>)
    ensures
        match r {
            Ok(_) => n <= len_bytes,
            Err(m) => n > len_bytes && m@ == "buffer read larger than buffer"@,
        },
{
    if n > len_bytes {
        return Err("buffer read larger than buffer".to_owned());
    }
    Ok(())
}

/// The sizes of a launch: at least one work item, in groups of at least one and no more than
/// there are items.
pub fn launch_sizes(global: usize, local: usize) -> (r: (usize, usize))
    ensures
        r.0 == if global == 0 {
            1
        } else {
            global
        },
        r.1 == if local == 0 {
            1
        } else if local > r.0 {
            r.0
        } else {
            local
        },
{
    let g: usize = if global == 0 {
        1
    } else {
        global
    };
    let l: usize = if local == 0 {
        1
    } else if local > g {
        g
    } else {
        local
    };
    (g, l)
}

} // verus!

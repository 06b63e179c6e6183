//! Small decisions of the renderer: debug names of object types, swapchain
//! image counts, the frame-in-flight cycle, recovery from a failed surface
//! and the leaf flag of a wide hierarchy node.

use vstd::prelude::*;

verus! {

/// Frames recorded ahead of the GPU.
pub const FRAMES_IN_FLIGHT: usize = 3;

/// The name of a Vulkan object type code, as the debug messenger prints it.
pub open spec fn object_type_name(code: i32) -> &'static str {
    if code == 0 { "UNKNOWN" }
    else if code == 1 { "INSTANCE" }
    else if code == 2 { "PHYSICAL_DEVICE" }
    else if code == 3 { "DEVICE" }
    else if code == 4 { "QUEUE" }
    else if code == 5 { "SEMAPHORE" }
    else if code == 6 { "COMMAND_BUFFER" }
    else if code == 7 { "FENCE" }
    else if code == 8 { "DEVICE_MEMORY" }
    else if code == 9 { "BUFFER" }
    else if code == 10 { "IMAGE" }
    else if code == 11 { "EVENT" }
    else if code == 12 { "QUERY_POOL" }
    else if code == 13 { "BUFFER_VIEW" }
    else if code == 14 { "IMAGE_VIEW" }
    else if code == 15 { "SHADER_MODULE" }
    else if code == 16 { "PIPELINE_CACHE" }
    else if code == 17 { "PIPELINE_LAYOUT" }
    else if code == 18 { "RENDER_PASS" }
    else if code == 19 { "PIPELINE" }
    else if code == 20 { "DESCRIPTOR_SET_LAYOUT" }
    else if code == 21 { "SAMPLER" }
    else if code == 22 { "DESCRIPTOR_POOL" }
    else if code == 23 { "DESCRIPTOR_SET" }
    else if code == 24 { "FRAMEBUFFER" }
    else if code == 25 { "COMMAND_POOL" }
    else { "<unknown>" }
}

pub fn object_type_to_str(code: i32) -> (name: &'static str)
    ensures
        name == object_type_name(code),
{
    match code {
        0 => "UNKNOWN",
        1 => "INSTANCE",
        2 => "PHYSICAL_DEVICE",
        3 => "DEVICE",
        4 => "QUEUE",
        5 => "SEMAPHORE",
        6 => "COMMAND_BUFFER",
        7 => "FENCE",
        8 => "DEVICE_MEMORY",
        9 => "BUFFER",
        10 => "IMAGE",
        11 => "EVENT",
        12 => "QUERY_POOL",
        13 => "BUFFER_VIEW",
        14 => "IMAGE_VIEW",
        15 => "SHADER_MODULE",
        16 => "PIPELINE_CACHE",
        17 => "PIPELINE_LAYOUT",
        18 => "RENDER_PASS",
        19 => "PIPELINE",
        20 => "DESCRIPTOR_SET_LAYOUT",
        21 => "SAMPLER",
        22 => "DESCRIPTOR_POOL",
        23 => "DESCRIPTOR_SET",
        24 => "FRAMEBUFFER",
        25 => "COMMAND_POOL",
        _ => "<unknown>",
    }
}

/// Swapchain images to ask for: one more than the frames in flight, within
/// the surface's limits (no upper limit when `max_image_count` is `None`).
pub fn swapchain_image_count(min_image_count: u32, max_image_count: Option<u32>) -> (n: u32)
    requires
        min_image_count <= (match max_image_count {
            Some(m) => m,
            None => u32::MAX,
        }),
    ensures
        ({
            let max = match max_image_count {
                Some(m) => m,
                None => u32::MAX,
            };
            n == if FRAMES_IN_FLIGHT + 1 < min_image_count {
                min_image_count
            } else if FRAMES_IN_FLIGHT + 1 > max {
                max
            } else {
                (FRAMES_IN_FLIGHT + 1) as u32
            }
        }),
        min_image_count <= n,
        max_image_count matches Some(m) ==> n <= m,
        min_image_count <= FRAMES_IN_FLIGHT + 1 && (max_image_count matches Some(m) ==> FRAMES_IN_FLIGHT + 1
            <= m) ==> n == FRAMES_IN_FLIGHT + 1,
{
    let max = match max_image_count {
        Some(m) => m,
        None => u32::MAX,
    };
    let wanted = FRAMES_IN_FLIGHT as u32 + 1;
    if wanted < min_image_count {
        min_image_count
    } else if wanted > max {
        max
    } else {
        wanted
    }
}

/// Swapchain images to ask for in the single-frame renderer: one more than
/// the surface's minimum, capped by its maximum.
pub fn minimum_plus_one_image_count(min_image_count: u32, max_image_count: Option<u32>) -> (n: u32)
    requires
        min_image_count < u32::MAX,
    ensures
        ({
            let max = match max_image_count {
                Some(m) => m,
                None => u32::MAX,
            };
            n == if min_image_count + 1 < max { min_image_count + 1 } else { max as int }
        }),
        n <= min_image_count + 1,
        max_image_count matches Some(m) ==> n <= m,
        (max_image_count matches Some(m) ==> min_image_count + 1 <= m) ==> n == min_image_count + 1,
{
    let max = match max_image_count {
        Some(m) => m,
        None => u32::MAX,
    };
    let wanted = min_image_count + 1;
    if wanted < max {
        wanted
    } else {
        max
    }
}

/// The frame-in-flight slot after `index`.
pub fn next_frame_in_flight(index: usize) -> (next: usize)
    requires
        index < usize::MAX,
    ensures
        next == (index + 1) % (FRAMES_IN_FLIGHT as int),
        next < FRAMES_IN_FLIGHT,
{
    (index + 1) % FRAMES_IN_FLIGHT
}

/// Why the next surface image could not be acquired.
#[derive(Clone, Copy, PartialEq, Eq, Structural, Debug)]
pub enum SurfaceErrorKind {
    Lost,
    Outdated,
    Other,
    Timeout,
    OutOfMemory,
}

/// What the frame loop does when no surface image could be acquired.
#[derive(Clone, Copy, PartialEq, Eq, Structural, Debug)]
pub enum SurfaceRecovery {
    /// Reconfigure the surface and skip this frame.
    Reconfigure,
    /// Skip this frame.
    SkipFrame,
    /// Leave the event loop.
    Exit,
}

/// A lost, outdated or otherwise failed surface is reconfigured, a timeout
/// skips the frame, and running out of memory ends the program.
pub fn surface_error_recovery(error: SurfaceErrorKind) -> (r: SurfaceRecovery)
    ensures
        r == match error {
            SurfaceErrorKind::Lost | SurfaceErrorKind::Outdated | SurfaceErrorKind::Other => SurfaceRecovery::Reconfigure,
            SurfaceErrorKind::Timeout => SurfaceRecovery::SkipFrame,
            SurfaceErrorKind::OutOfMemory => SurfaceRecovery::Exit,
        },
{
    match error {
        SurfaceErrorKind::Lost | SurfaceErrorKind::Outdated | SurfaceErrorKind::Other => SurfaceRecovery::Reconfigure,
        SurfaceErrorKind::Timeout => SurfaceRecovery::SkipFrame,
        SurfaceErrorKind::OutOfMemory => SurfaceRecovery::Exit,
    }
}

/// Whether child `child_index` (below 8) of a wide node is a leaf, read from
/// its meta byte: the low five bits are 0 to 23 for a leaf (the high three
/// bits count its triangles in unary), 24 and above for an internal child.
pub fn wide_child_is_leaf(meta: &[u8; 8], child_index: usize) -> (r: bool)
    requires
        child_index < 8,
    ensures
        r == ((meta@[child_index as int] & 0x1f) < 24),
{
    (meta[child_index] & 0b00011111) < 24
}

} // verus!

//! Renderer configuration: which graphics backends to try, how frames are
//! presented, which adapter to prefer, and whether API validation is on.
//!
//! Vsync and the present mode are kept consistent: turning vsync on
//! selects FIFO presentation and turning it off selects mailbox; choosing
//! a present mode sets vsync exactly when the mode is one of the FIFO
//! modes.

use vstd::prelude::*;

verus! {

/// How rendered frames are presented to the surface.
#[derive(Copy, Clone, Debug, PartialEq, Eq, Structural)]
pub enum PresentMode {
    /// Vsync if supported, else no vsync.
    AutoVsync,
    /// No vsync if supported, else vsync.
    AutoNoVsync,
    /// First-in first-out queue; waits for vertical blank.
    Fifo,
    /// FIFO, but a late frame is shown at once.
    FifoRelaxed,
    /// Frames are shown at once, with tearing.
    Immediate,
    /// The newest frame replaces the queued one; no tearing.
    Mailbox,
}

/// Which adapter to prefer.
#[derive(Copy, Clone, Debug, PartialEq, Eq, Structural)]
pub enum PowerPreference {
    /// No preference.
    NoPreference,
    /// Prefer the low-power adapter.
    LowPower,
    /// Prefer the high-performance adapter.
    HighPerformance,
}

/// A set of graphics backends.
#[derive(Copy, Clone, Debug, PartialEq, Eq, Structural)]
pub struct Backends {
    /// Vulkan.
    pub vulkan: bool,
    /// Metal.
    pub metal: bool,
    /// Direct3D 12.
    pub dx12: bool,
    /// OpenGL / GLES.
    pub gl: bool,
    /// WebGPU in a browser.
    pub browser_webgpu: bool,
}

impl Backends {
    /// Every backend.
    pub fn all() -> (r: Self)
        ensures
            r.vulkan && r.metal && r.dx12 && r.gl && r.browser_webgpu,
    {
        Backends { vulkan: true, metal: true, dx12: true, gl: true, browser_webgpu: true }
    }

    /// Vulkan only.
    pub fn vulkan_only() -> (r: Self)
        ensures
            r.vulkan && !r.metal && !r.dx12 && !r.gl && !r.browser_webgpu,
    {
        Backends { vulkan: true, metal: false, dx12: false, gl: false, browser_webgpu: false }
    }
}

/// Renderer configuration.
#[derive(Clone, Debug)]
pub struct RendererConfig {
    /// Backends to try.
    pub backend: Backends,
    /// Whether presentation waits for vertical blank.
    pub vsync: bool,
    /// Present mode.
    pub present_mode: PresentMode,
    /// Adapter preference.
    pub power_preference: PowerPreference,
    /// Whether graphics-API validation is enabled.
    pub validation: bool,
    /// Label of the graphics instance.
    pub instance_label: String,
    /// Label of the device.
    pub device_label: String,
}

/// Whether a present mode waits for vertical blank.
pub open spec fn is_vsync_mode(mode: PresentMode) -> bool {
    mode is Fifo || mode is FifoRelaxed
}

impl RendererConfig {
    /// Vsync is on exactly when the present mode is a FIFO mode.
    pub open spec fn vsync_consistent(&self) -> bool {
        self.vsync == is_vsync_mode(self.present_mode)
    }

    /// The default configuration: every backend, vsync with FIFO
    /// presentation, the high-performance adapter, and the given
    /// validation setting (on in debug builds).
    pub fn new(validation: bool) -> (r: Self)
        ensures
            r.backend.vulkan && r.backend.metal && r.backend.dx12 && r.backend.gl && r.backend.browser_webgpu,
            r.vsync,
            r.present_mode == PresentMode::Fifo,
            r.power_preference == PowerPreference::HighPerformance,
            r.validation == validation,
            r.instance_label@ == "hyge-render"@,
            r.device_label@ == "hyge-device"@,
            r.vsync_consistent(),
    {
        RendererConfig {
            backend: Backends::all(),
            vsync: true,
            present_mode: PresentMode::Fifo,
            power_preference: PowerPreference::HighPerformance,
            validation,
            instance_label: String::from_str("hyge-render"),
            device_label: String::from_str("hyge-device"),
        }
    }

    /// Sets the backends to try.
    pub fn with_backend(self, backend: Backends) -> (r: Self)
        ensures
            r.backend == backend,
            r.vsync == self.vsync,
            r.present_mode == self.present_mode,
            r.power_preference == self.power_preference,
            r.validation == self.validation,
            r.instance_label == self.instance_label,
            r.device_label == self.device_label,
    {
        RendererConfig { backend, ..self }
    }

    /// Turns vsync on (FIFO presentation) or off (mailbox presentation).
    pub fn with_vsync(self, vsync: bool) -> (r: Self)
        ensures
            r.vsync == vsync,
            r.present_mode == (if vsync {
                PresentMode::Fifo
            } else {
                PresentMode::Mailbox
            }),
            r.vsync_consistent(),
            r.backend == self.backend,
            r.power_preference == self.power_preference,
            r.validation == self.validation,
            r.instance_label == self.instance_label,
            r.device_label == self.device_label,
    {
        let present_mode = if vsync {
            PresentMode::Fifo
        } else {
            PresentMode::Mailbox
        };
        RendererConfig { vsync, present_mode, ..self }
    }

    /// Sets the present mode; vsync follows it.
    pub fn with_present_mode(self, mode: PresentMode) -> (r: Self)
        ensures
            r.present_mode == mode,
            r.vsync == is_vsync_mode(mode),
            r.vsync_consistent(),
            r.backend == self.backend,
            r.power_preference == self.power_preference,
            r.validation == self.validation,
            r.instance_label == self.instance_label,
            r.device_label == self.device_label,
    {
        let vsync = match mode {
            PresentMode::Fifo => true,
            PresentMode::FifoRelaxed => true,
            _ => false,
        };
        RendererConfig { present_mode: mode, vsync, ..self }
    }

    /// Sets the adapter preference.
    pub fn with_power_preference(self, pref: PowerPreference) -> (r: Self)
        ensures
            r.power_preference == pref,
            r.backend == self.backend,
            r.vsync == self.vsync,
            r.present_mode == self.present_mode,
            r.validation == self.validation,
            r.instance_label == self.instance_label,
            r.device_label == self.device_label,
    {
        RendererConfig { power_preference: pref, ..self }
    }

    /// Turns graphics-API validation on or off.
    pub fn with_validation(self, on: bool) -> (r: Self)
        ensures
            r.validation == on,
            r.backend == self.backend,
            r.vsync == self.vsync,
            r.present_mode == self.present_mode,
            r.power_preference == self.power_preference,
            r.instance_label == self.instance_label,
            r.device_label == self.device_label,
    {
        RendererConfig { validation: on, ..self }
    }
}

/// Exec equality of present modes.
fn same_mode(a: PresentMode, b: PresentMode) -> (r: bool)
    ensures
        r == (a == b),
{
    match (a, b) {
        (PresentMode::AutoVsync, PresentMode::AutoVsync) => true,
        (PresentMode::AutoNoVsync, PresentMode::AutoNoVsync) => true,
        (PresentMode::Fifo, PresentMode::Fifo) => true,
        (PresentMode::FifoRelaxed, PresentMode::FifoRelaxed) => true,
        (PresentMode::Immediate, PresentMode::Immediate) => true,
        (PresentMode::Mailbox, PresentMode::Mailbox) => true,
        _ => false,
    }
}

/// The present mode to configure a surface with: the requested one when
/// the surface supports it, else FIFO, which every surface supports.
pub fn pick_present_mode(supported: &Vec<PresentMode>, requested: PresentMode) -> (r: PresentMode)
    ensures
        r == (if supported@.contains(requested) {
            requested
        } else {
            PresentMode::Fifo
        }),
{
    let mut i: usize = 0;
    while i < supported.len()
        invariant
            i <= supported@.len(),
            forall|j: int| 0 <= j < i ==> supported@[j] != requested,
        decreases supported@.len() - i,
    {
        if same_mode(supported[i], requested) {
            assert(supported@[i as int] == requested);
            return requested;
        }
        i = i + 1;
    }
    PresentMode::Fifo
}

} // verus!

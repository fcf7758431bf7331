//! Graphics settings: the choices, their limits and what they turn into.
use vstd::prelude::*;

verus! {

pub const VIEW_DISTANCE_MIN: u32 = 4;

pub const VIEW_DISTANCE_MAX: u32 = 32;

#[derive(Clone, Copy, Debug, PartialEq, Eq, Structural)]
pub enum AntiAliasingMode {
    Off,
    Fxaa,
    Msaa2x,
    Msaa4x,
    Msaa8x,
}

impl Default for AntiAliasingMode {
    fn default() -> (mode: Self)
        ensures
            mode == AntiAliasingMode::Msaa4x,
    {
        AntiAliasingMode::Msaa4x
    }
}

/// Multisampling levels of the render target.
#[derive(Clone, Copy, Debug, PartialEq, Eq, Structural)]
pub enum Msaa {
    Off,
    Sample2,
    Sample4,
    Sample8,
}

impl AntiAliasingMode {
    /// The multisampling level: off for no anti-aliasing and for FXAA.
    pub fn msaa(self) -> (msaa: Msaa)
        ensures
            msaa == match self {
                AntiAliasingMode::Off | AntiAliasingMode::Fxaa => Msaa::Off,
                AntiAliasingMode::Msaa2x => Msaa::Sample2,
                AntiAliasingMode::Msaa4x => Msaa::Sample4,
                AntiAliasingMode::Msaa8x => Msaa::Sample8,
            },
    {
        match self {
            AntiAliasingMode::Off | AntiAliasingMode::Fxaa => Msaa::Off,
            AntiAliasingMode::Msaa2x => Msaa::Sample2,
            AntiAliasingMode::Msaa4x => Msaa::Sample4,
            AntiAliasingMode::Msaa8x => Msaa::Sample8,
        }
    }

    /// Whether the camera gets the FXAA pass.
    pub fn uses_fxaa(self) -> (fxaa: bool)
        ensures
            fxaa == (self == AntiAliasingMode::Fxaa),
    {
        match self {
            AntiAliasingMode::Fxaa => true,
            _ => false,
        }
    }
}

#[derive(Clone, Copy, Debug, PartialEq, Eq, Structural)]
pub enum ShadowQuality {
    Off,
    Low,
    Medium,
    High,
}

impl Default for ShadowQuality {
    fn default() -> (quality: Self)
        ensures
            quality == ShadowQuality::Medium,
    {
        ShadowQuality::Medium
    }
}

impl ShadowQuality {
    /// The directional shadow map size; `None` when shadows are off.
    pub fn map_size(self) -> (size: Option<usize>)
        ensures
            size == match self {
                ShadowQuality::Off => None,
                ShadowQuality::Low => Some(1024usize),
                ShadowQuality::Medium => Some(2048usize),
                ShadowQuality::High => Some(4096usize),
            },
    {
        match self {
            ShadowQuality::Off => None,
            ShadowQuality::Low => Some(1024),
            ShadowQuality::Medium => Some(2048),
            ShadowQuality::High => Some(4096),
        }
    }

    /// Whether lights cast shadows at all.
    pub fn shadows_enabled(self) -> (enabled: bool)
        ensures
            enabled == !(self == ShadowQuality::Off),
    {
        match self {
            ShadowQuality::Off => false,
            _ => true,
        }
    }
}

#[derive(Clone, Copy, Debug, PartialEq, Eq, Structural)]
pub enum DisplayMode {
    Windowed,
    BorderlessFullscreen,
}

impl Default for DisplayMode {
    fn default() -> (mode: Self)
        ensures
            mode == DisplayMode::BorderlessFullscreen,
    {
        DisplayMode::BorderlessFullscreen
    }
}

/// The integer and enumerated graphics choices (the field of view, a float,
/// is kept beside them by the application).
#[derive(Clone, Copy, Debug, PartialEq, Eq, Structural)]
pub struct GraphicsSettings {
    pub anti_aliasing: AntiAliasingMode,
    pub vsync: bool,
    pub shadow_quality: ShadowQuality,
    pub view_distance: u32,
    pub display_mode: DisplayMode,
}

impl Default for GraphicsSettings {
    fn default() -> (settings: Self)
        ensures
            settings.anti_aliasing == AntiAliasingMode::Msaa4x,
            settings.vsync,
            settings.shadow_quality == ShadowQuality::Medium,
            settings.view_distance == 10,
            settings.display_mode == DisplayMode::BorderlessFullscreen,
    {
        GraphicsSettings {
            anti_aliasing: AntiAliasingMode::Msaa4x,
            vsync: true,
            shadow_quality: ShadowQuality::Medium,
            view_distance: 10,
            display_mode: DisplayMode::BorderlessFullscreen,
        }
    }
}

pub open spec fn clamp_view_distance(view_distance: u32) -> u32 {
    if view_distance < VIEW_DISTANCE_MIN {
        VIEW_DISTANCE_MIN
    } else if view_distance > VIEW_DISTANCE_MAX {
        VIEW_DISTANCE_MAX
    } else {
        view_distance
    }
}

/// Clamping keeps a view distance inside `4..=32`, leaves one already inside
/// unchanged, and never reverses the order of two distances.
pub proof fn lemma_clamp_law(a: u32, b: u32)
    ensures
        4 <= clamp_view_distance(a) <= 32,
        4 <= a <= 32 ==> clamp_view_distance(a) == a,
        a < 4 ==> clamp_view_distance(a) == 4,
        a > 32 ==> clamp_view_distance(a) == 32,
        a <= b ==> clamp_view_distance(a) <= clamp_view_distance(b),
{
}

/// A view distance in chunks, clamped to `4..=32`.
pub fn clamped_view_distance(view_distance: u32) -> (clamped: u32)
    ensures
        clamped == clamp_view_distance(view_distance),
        VIEW_DISTANCE_MIN <= clamped <= VIEW_DISTANCE_MAX,
{
    if view_distance < VIEW_DISTANCE_MIN {
        VIEW_DISTANCE_MIN
    } else if view_distance > VIEW_DISTANCE_MAX {
        VIEW_DISTANCE_MAX
    } else {
        view_distance
    }
}

impl GraphicsSettings {
    /// The view distance actually streamed.
    pub fn effective_view_distance(&self) -> (distance: u32)
        ensures
            distance == clamp_view_distance(self.view_distance),
    {
        clamped_view_distance(self.view_distance)
    }

    /// The same settings with the view distance clamped.
    pub fn normalized(self) -> (normalized: Self)
        ensures
            normalized == normalize(self),
    {
        GraphicsSettings { view_distance: clamped_view_distance(self.view_distance), ..self }
    }
}

/// The settings with the view distance clamped.
pub open spec fn normalize(settings: GraphicsSettings) -> GraphicsSettings {
    GraphicsSettings { view_distance: clamp_view_distance(settings.view_distance), ..settings }
}

/// Normalizing settings twice gives what normalizing once gives: a clamped
/// view distance is left as it is.
pub proof fn lemma_normalized_idempotent(settings: GraphicsSettings)
    ensures
        normalize(normalize(settings)) == normalize(settings),
{
}

/// Presentation: with vsync the swap chain waits for the display (FIFO).
pub fn present_with_vsync(settings: &GraphicsSettings) -> (fifo: bool)
    ensures
        fifo == settings.vsync,
{
    settings.vsync
}

/// What the window needs for the chosen display mode.
#[derive(Clone, Copy, Debug, PartialEq, Eq, Structural)]
pub enum WindowPlan {
    /// Leave the window as it is.
    Keep,
    /// Switch to a window of the default windowed size.
    MakeWindowed,
    /// Go borderless fullscreen on the primary monitor.
    MakeBorderless,
}

/// A windowed choice resizes only a window that is not windowed yet; the
/// borderless choice always (re)applies fullscreen.
pub fn window_plan(mode: DisplayMode, currently_windowed: bool) -> (plan: WindowPlan)
    ensures
        plan == match mode {
            DisplayMode::Windowed => if currently_windowed {
                WindowPlan::Keep
            } else {
                WindowPlan::MakeWindowed
            },
            DisplayMode::BorderlessFullscreen => WindowPlan::MakeBorderless,
        },
{
    match mode {
        DisplayMode::Windowed => if currently_windowed {
            WindowPlan::Keep
        } else {
            WindowPlan::MakeWindowed
        },
        DisplayMode::BorderlessFullscreen => WindowPlan::MakeBorderless,
    }
}

} // verus!

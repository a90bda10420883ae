use vstd::prelude::*;

verus! {

pub const DEBUG_SOURCE_API: u32 = 0x8246;
pub const DEBUG_SOURCE_WINDOW_SYSTEM: u32 = 0x8247;
pub const DEBUG_SOURCE_SHADER_COMPILER: u32 = 0x8248;
pub const DEBUG_SOURCE_THIRD_PARTY: u32 = 0x8249;
pub const DEBUG_SOURCE_APPLICATION: u32 = 0x824A;
pub const DEBUG_SOURCE_OTHER: u32 = 0x824B;
pub const DEBUG_TYPE_ERROR: u32 = 0x824C;
pub const DEBUG_TYPE_DEPRECATED_BEHAVIOR: u32 = 0x824D;
pub const DEBUG_TYPE_UNDEFINED_BEHAVIOR: u32 = 0x824E;
pub const DEBUG_TYPE_PORTABILITY: u32 = 0x824F;
pub const DEBUG_TYPE_PERFORMANCE: u32 = 0x8250;
pub const DEBUG_TYPE_OTHER: u32 = 0x8251;
pub const DEBUG_SEVERITY_NOTIFICATION: u32 = 0x826B;
pub const DEBUG_SEVERITY_HIGH: u32 = 0x9146;
pub const DEBUG_SEVERITY_MEDIUM: u32 = 0x9147;
pub const DEBUG_SEVERITY_LOW: u32 = 0x9148;

/// Where a GL debug message comes from.
#[derive(Copy, Clone, Debug, PartialEq, Eq, Structural)]
pub enum GlSource {
    Api,
    WindowSystem,
    ShaderCompiler,
    ThirdParty,
    Application,
    Other,
}

/// What a GL debug message is about.
#[derive(Copy, Clone, Debug, PartialEq, Eq, Structural)]
pub enum GlType {
    Error,
    DeprecatedBehavior,
    UndefinedBehavior,
    Portability,
    Performance,
    Other,
}

/// How severe a reported GL debug message is (notifications are not reported).
#[derive(Copy, Clone, Debug, PartialEq, Eq, Structural)]
pub enum GlSeverity {
    High,
    Medium,
    Low,
}

/// What to do with a GL debug message.
#[derive(Copy, Clone, Debug, PartialEq, Eq, Structural)]
pub enum GlReport {
    /// A notification: nothing is reported.
    Skip,
    /// Report the message; a high or medium severity then aborts.
    Report(GlSource, GlType, GlSeverity),
    /// The severity code is none GL defines.
    UnknownSeverity,
    /// The type code is none GL defines.
    UnknownType,
    /// The source code is none GL defines.
    UnknownSource,
}

pub open spec fn spec_source(code: u32) -> Option<GlSource> {
    if code == DEBUG_SOURCE_API { Some(GlSource::Api) }
    else if code == DEBUG_SOURCE_WINDOW_SYSTEM { Some(GlSource::WindowSystem) }
    else if code == DEBUG_SOURCE_SHADER_COMPILER { Some(GlSource::ShaderCompiler) }
    else if code == DEBUG_SOURCE_THIRD_PARTY { Some(GlSource::ThirdParty) }
    else if code == DEBUG_SOURCE_APPLICATION { Some(GlSource::Application) }
    else if code == DEBUG_SOURCE_OTHER { Some(GlSource::Other) }
    else { None }
}

pub open spec fn spec_type(code: u32) -> Option<GlType> {
    if code == DEBUG_TYPE_ERROR { Some(GlType::Error) }
    else if code == DEBUG_TYPE_DEPRECATED_BEHAVIOR { Some(GlType::DeprecatedBehavior) }
    else if code == DEBUG_TYPE_UNDEFINED_BEHAVIOR { Some(GlType::UndefinedBehavior) }
    else if code == DEBUG_TYPE_PORTABILITY { Some(GlType::Portability) }
    else if code == DEBUG_TYPE_PERFORMANCE { Some(GlType::Performance) }
    else if code == DEBUG_TYPE_OTHER { Some(GlType::Other) }
    else { None }
}

pub open spec fn spec_severity(code: u32) -> Option<GlSeverity> {
    if code == DEBUG_SEVERITY_HIGH { Some(GlSeverity::High) }
    else if code == DEBUG_SEVERITY_MEDIUM { Some(GlSeverity::Medium) }
    else if code == DEBUG_SEVERITY_LOW { Some(GlSeverity::Low) }
    else { None }
}

/// The source named by a GL code, if GL defines it.
pub fn gl_source(code: u32) -> (r: Option<GlSource>)
    ensures
        r == spec_source(code),
{
    if code == DEBUG_SOURCE_API { Some(GlSource::Api) }
    else if code == DEBUG_SOURCE_WINDOW_SYSTEM { Some(GlSource::WindowSystem) }
    else if code == DEBUG_SOURCE_SHADER_COMPILER { Some(GlSource::ShaderCompiler) }
    else if code == DEBUG_SOURCE_THIRD_PARTY { Some(GlSource::ThirdParty) }
    else if code == DEBUG_SOURCE_APPLICATION { Some(GlSource::Application) }
    else if code == DEBUG_SOURCE_OTHER { Some(GlSource::Other) }
    else { None }
}

/// The type named by a GL code, if GL defines it.
pub fn gl_type(code: u32) -> (r: Option<GlType>)
    ensures
        r == spec_type(code),
{
    if code == DEBUG_TYPE_ERROR { Some(GlType::Error) }
    else if code == DEBUG_TYPE_DEPRECATED_BEHAVIOR { Some(GlType::DeprecatedBehavior) }
    else if code == DEBUG_TYPE_UNDEFINED_BEHAVIOR { Some(GlType::UndefinedBehavior) }
    else if code == DEBUG_TYPE_PORTABILITY { Some(GlType::Portability) }
    else if code == DEBUG_TYPE_PERFORMANCE { Some(GlType::Performance) }
    else if code == DEBUG_TYPE_OTHER { Some(GlType::Other) }
    else { None }
}

/// What a GL debug message calls for. The severity is read first: a notification is
/// skipped whatever its type and source; otherwise an unknown severity, then an unknown
/// type, then an unknown source is reported as such.
pub fn describe_gl_message(source: u32, ty: u32, severity: u32) -> (r: GlReport)
    ensures
        r == (if severity == DEBUG_SEVERITY_NOTIFICATION {
            GlReport::Skip
        } else if spec_severity(severity) is None {
            GlReport::UnknownSeverity
        } else if spec_type(ty) is None {
            GlReport::UnknownType
        } else if spec_source(source) is None {
            GlReport::UnknownSource
        } else {
            GlReport::Report(spec_source(source)->0, spec_type(ty)->0, spec_severity(severity)->0)
        }),
{
    let sev = if severity == DEBUG_SEVERITY_HIGH {
        GlSeverity::High
    } else if severity == DEBUG_SEVERITY_MEDIUM {
        GlSeverity::Medium
    } else if severity == DEBUG_SEVERITY_LOW {
        GlSeverity::Low
    } else if severity == DEBUG_SEVERITY_NOTIFICATION {
        return GlReport::Skip;
    } else {
        return GlReport::UnknownSeverity;
    };
    let t = match gl_type(ty) {
        Some(t) => t,
        None => return GlReport::UnknownType,
    };
    let s = match gl_source(source) {
        Some(s) => s,
        None => return GlReport::UnknownSource,
    };
    GlReport::Report(s, t, sev)
}

impl GlSeverity {
    /// A high or medium severity aborts once reported.
    pub fn aborts(self) -> (r: bool)
        ensures
            r == (self == GlSeverity::High || self == GlSeverity::Medium),
    {
        match self {
            GlSeverity::High => true,
            GlSeverity::Medium => true,
            GlSeverity::Low => false,
        }
    }

    /// The severity's name in reports.
    pub fn name(self) -> (r: &'static str)
        ensures
            r@ == (match self {
                GlSeverity::High => "high"@,
                GlSeverity::Medium => "medium"@,
                GlSeverity::Low => "low"@,
            }),
    {
        match self {
            GlSeverity::High => "high",
            GlSeverity::Medium => "medium",
            GlSeverity::Low => "low",
        }
    }
}

impl GlType {
    /// The type's name in reports.
    pub fn name(self) -> (r: &'static str)
        ensures
            r@ == (match self {
                GlType::Error => "error"@,
                GlType::DeprecatedBehavior => "deprecated behaviour"@,
                GlType::UndefinedBehavior => "undefined behaviour"@,
                GlType::Portability => "portability"@,
                GlType::Performance => "performance"@,
                GlType::Other => "other"@,
            }),
    {
        match self {
            GlType::Error => "error",
            GlType::DeprecatedBehavior => "deprecated behaviour",
            GlType::UndefinedBehavior => "undefined behaviour",
            GlType::Portability => "portability",
            GlType::Performance => "performance",
            GlType::Other => "other",
        }
    }
}

impl GlSource {
    /// The source's name in reports.
    pub fn name(self) -> (r: &'static str)
        ensures
            r@ == (match self {
                GlSource::Api => "api"@,
                GlSource::WindowSystem => "window system"@,
                GlSource::ShaderCompiler => "shader compiler"@,
                GlSource::ThirdParty => "third party"@,
                GlSource::Application => "application"@,
                GlSource::Other => "other"@,
            }),
    {
        match self {
            GlSource::Api => "api",
            GlSource::WindowSystem => "window system",
            GlSource::ShaderCompiler => "shader compiler",
            GlSource::ThirdParty => "third party",
            GlSource::Application => "application",
            GlSource::Other => "other",
        }
    }
}

} // verus!

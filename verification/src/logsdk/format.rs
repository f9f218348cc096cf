//! How log messages are laid out: the caller's file, trimmed to its last
//! two components, the level and module painted in their colours, the line
//! number and the message.
use vstd::prelude::*;
use crate::logsdk::common::{LogLevel, LogEntry, get_simple_loglevel, level_name};
use crate::logsdk::module::CellModule;
use crate::logsdk::paint::{Color, paint, painted};
use crate::logsdk::text::{decimal, decimal_string};

verus! {

/// How many path components of the caller's file are kept, plus one.
pub const SKIP_CALLER: usize = 3;

/// The colours of the levels and of module names.
pub struct ColorProperty {
    pub trace_level_color: Color,
    pub debug_level_color: Color,
    pub info_level_color: Color,
    pub warn_level_color: Color,
    pub error_level_color: Color,
    pub default_module_color: Color,
}

impl ColorProperty {
    /// Green trace, blue debug, green info, yellow warnings, red errors, cyan
    /// modules.
    pub fn default_color_property() -> (r: Self)
        ensures
            r.trace_level_color == Color::Green,
            r.debug_level_color == Color::Blue,
            r.info_level_color == Color::Green,
            r.warn_level_color == Color::Yellow,
            r.error_level_color == Color::Red,
            r.default_module_color == Color::Cyan,
    {
        ColorProperty {
            trace_level_color: Color::Green,
            debug_level_color: Color::Blue,
            info_level_color: Color::Green,
            warn_level_color: Color::Yellow,
            error_level_color: Color::Red,
            default_module_color: Color::Cyan,
        }
    }
}

/// The logger's settings: the source files whose frames are skipped when
/// finding the caller, and the colours.
pub struct CellLoggerConfiguration {
    pub black_list: Vec<String>,
    pub color_property: ColorProperty,
}

/// The colour of level `l`.
pub open spec fn level_color(p: ColorProperty, l: LogLevel) -> Color {
    match l {
        LogLevel::Trace => p.trace_level_color,
        LogLevel::Debug => p.debug_level_color,
        LogLevel::Info => p.info_level_color,
        LogLevel::Warn => p.warn_level_color,
        LogLevel::Error => p.error_level_color,
    }
}

/// The colours of level `l` and of module names.
pub fn get_color(p: &ColorProperty, l: LogLevel, module_name: &str) -> (r: (Color, Color))
    ensures
        r == (level_color(*p, l), p.default_module_color),
{
    let level_color = match l {
        LogLevel::Trace => p.trace_level_color,
        LogLevel::Debug => p.debug_level_color,
        LogLevel::Info => p.info_level_color,
        LogLevel::Warn => p.warn_level_color,
        LogLevel::Error => p.error_level_color,
    };
    (level_color, p.default_module_color)
}

/// The number of slashes in `s`.
pub open spec fn slash_count(s: Seq<char>) -> nat
    decreases s.len(),
{
    if s.len() == 0 {
        0
    } else {
        (if s[0] == '/' { 1nat } else { 0nat }) + slash_count(s.drop_first())
    }
}

/// `r` is the file path `s` as shown: with more than three components, the
/// part after the second-to-last slash (the last two components); else all
/// of it.
pub open spec fn trimmed_path(s: Seq<char>, r: Seq<char>) -> bool {
    if slash_count(s) + 1 > SKIP_CALLER {
        exists|p: int| 0 <= p < s.len() && s[p] == '/' && slash_count(s.subrange(p + 1, s.len() as int)) == 1
            && r == s.subrange(p + 1, s.len() as int)
    } else {
        r == s
    }
}

/// The caller's file as shown: its last two components when it has more
/// than three.
pub fn trim_caller_path(file_str: &str) -> (r: String)
    ensures
        trimmed_path(file_str@, r@),
{
    let s = file_str;
    let n = s.unicode_len();
    let ghost v = s@;
    let mut i: usize = n;
    let mut count: usize = 0;
    let mut cut: usize = 0;
    proof {
        assert(v.subrange(n as int, n as int) =~= Seq::<char>::empty());
    }
    while i > 0
        invariant
            v == s@,
            n == v.len(),
            i <= n,
            count == slash_count(v.subrange(i as int, n as int)),
            count <= n - i,
            count >= 2 ==> cut < n && v[cut as int] == '/' && slash_count(v.subrange(cut + 1, n as int)) == 1,
        decreases i,
    {
        i = i - 1;
        let c = s.get_char(i);
        proof {
            let t = v.subrange(i as int, n as int);
            assert(t.drop_first() =~= v.subrange(i + 1, n as int));
            assert(t[0] == c);
        }
        if c == '/' {
            count = count + 1;
            if count == 2 {
                cut = i;
            }
        }
    }
    proof {
        assert(v.subrange(0, n as int) =~= v);
    }
    if count >= SKIP_CALLER {
        String::from_str(s.substring_char(cut + 1, n))
    } else {
        String::from_str(s)
    }
}

/// The laid-out message: `[now] LEVEL (module)(file:line):msg`, level and
/// module painted in their colours.
pub open spec fn formatted(
    p: ColorProperty,
    module_name: Seq<char>,
    file_info: Seq<char>,
    line_no: nat,
    l: LogLevel,
    msg: Seq<char>,
    now: Seq<char>,
) -> Seq<char> {
    "["@ + now + "] "@ + painted(level_color(p, l), level_name(l)) + " ("@ + painted(p.default_module_color, module_name)
        + ")("@ + file_info + ":"@ + decimal(line_no) + "):"@ + msg
}

/// Lays out a message of module `m` at level `l`, written at line `line_no`
/// of `file_str`, at time `now`.
pub fn default_format_msg(
    cfg: &CellLoggerConfiguration,
    m: &CellModule,
    file_str: &str,
    line_no: u32,
    l: LogLevel,
    format_msg: &str,
    now: &str,
) -> (r: String)
    ensures
        exists|file_info: Seq<char>| #[trigger] trimmed_path(file_str@, file_info)
            && r@ == formatted(cfg.color_property, m.name@, file_info, line_no as nat, l, format_msg@, now@),
{
    let file_info = trim_caller_path(file_str);
    let (level_color, module_color) = get_color(&cfg.color_property, l, m.name);
    let level_text = paint(level_color, get_simple_loglevel(l));
    let module_text = paint(module_color, m.name);
    let line_text = decimal_string(line_no as u64);
    let mut r = String::from_str("[");
    r.append(now);
    r.append("] ");
    r.append(level_text.as_str());
    r.append(" (");
    r.append(module_text.as_str());
    r.append(")(");
    r.append(file_info.as_str());
    r.append(":");
    r.append(line_text.as_str());
    r.append("):");
    r.append(format_msg);
    proof {
        assert(r@ =~= formatted(cfg.color_property, m.name@, file_info@, line_no as nat, l, format_msg@, now@));
    }
    r
}

/// Builds log entries.
pub struct LoggerEntryContext {}

impl LoggerEntryContext {
    /// The entry of a message of module `m` at level `l`, written at line
    /// `line_no` of `file_str`, at time `now`: the laid-out message, the
    /// level and the module.
    pub fn create_log_entry(
        cfg: &CellLoggerConfiguration,
        m: CellModule,
        l: LogLevel,
        file_str: &str,
        line_no: u32,
        format_msg: &str,
        now: &str,
    ) -> (r: LogEntry)
        ensures
            r.log_level == l,
            r.module == m,
            exists|file_info: Seq<char>| #[trigger] trimmed_path(file_str@, file_info)
                && r.msg@ == formatted(cfg.color_property, m.name@, file_info, line_no as nat, l, format_msg@, now@),
    {
        LogEntry { msg: default_format_msg(cfg, &m, file_str, line_no, l, format_msg, now), log_level: l, module: m }
    }
}

} // verus!

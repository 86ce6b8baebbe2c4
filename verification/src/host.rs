//! Host-side decisions that do not need a window system: the application
//! stack budget, log levels, command admission, surface id allocation, the
//! host command line and its diagnostics.
use vstd::prelude::*;
use crate::native::texts;
use crate::text::{
    split_whitespace, words,
    chars_of, join2, join3, owned, parse_usize, parse_usize_spec, same_chars, same_text,
    trim_chars, trim_spec,
};

verus! {

broadcast use vstd::string::group_string_axioms;

/// Stack the host reserves for the application thread when nothing else is
/// configured: twice the 8 MiB budget GPUI is developed against.
pub const DEFAULT_APP_STACK_BYTES: usize = 16 * 1024 * 1024;

/// The `Debug` rendering of a string: quoted, with escapes.
pub uninterp spec fn debug_quoted(s: Seq<char>) -> Seq<char>;

/// Formats `s` with `{:?}` (std's `Debug` for `str`); the text is named
/// `debug_quoted` and depends on `s` alone.
#[verifier::external_body]
fn debug_quote(s: &str) -> (r: String)
    ensures
        r@ == debug_quoted(s@),
{
    format!("{s:?}")
}

/// Parses the configured application stack budget.
///
/// An unset value takes the default. A present value must be a positive
/// byte count once surrounding white space is trimmed: substituting the
/// default would hide a mistyped limit until the application overflows.
pub fn parse_stack_budget(value: Option<&str>) -> (r: Result<usize, String>)
    ensures
        match value {
            None => r == Ok::<usize, String>(DEFAULT_APP_STACK_BYTES),
            Some(v) => match parse_usize_spec(trim_spec(v@)) {
                Some(bytes) => if bytes == 0 {
                    r is Err && r->Err_0@ == "expected a byte count greater than zero"@
                } else {
                    r == Ok::<usize, String>(bytes)
                },
                None => r is Err && r->Err_0@ == debug_quoted(v@) + " is not a byte count"@,
            },
        },
{
    match value {
        None => Ok(DEFAULT_APP_STACK_BYTES),
        Some(v) => {
            let chars = chars_of(v);
            let trimmed = trim_chars(&chars);
            match parse_usize(&trimmed) {
                Some(0) => Err(owned("expected a byte count greater than zero")),
                Some(bytes) => Ok(bytes),
                None => {
                    let quoted = debug_quote(v);
                    Err(join2(quoted.as_str(), " is not a byte count"))
                },
            }
        },
    }
}

/// How much the host reports on standard error.
#[derive(Clone, Copy, Debug, PartialEq, Eq, Structural)]
pub enum LogLevel {
    Off,
    Error,
    Info,
    Debug,
}

/// The order of log levels: `Off < Error < Info < Debug`.
pub open spec fn log_rank(level: LogLevel) -> int {
    match level {
        LogLevel::Off => 0,
        LogLevel::Error => 1,
        LogLevel::Info => 2,
        LogLevel::Debug => 3,
    }
}

fn rank(level: LogLevel) -> (r: u8)
    ensures
        r == log_rank(level),
{
    match level {
        LogLevel::Off => 0,
        LogLevel::Error => 1,
        LogLevel::Info => 2,
        LogLevel::Debug => 3,
    }
}

/// Whether a message of `message_level` is written at the configured `level`.
pub fn should_log(level: LogLevel, message_level: LogLevel) -> (r: bool)
    ensures
        r == (log_rank(level) >= log_rank(message_level)),
{
    rank(level) >= rank(message_level)
}

/// ASCII letters in lower case, everything else unchanged
/// (`str::to_ascii_lowercase`).
pub open spec fn ascii_lower_char(c: char) -> char {
    if 'A' <= c && c <= 'Z' {
        ((c as u32) + 32) as char
    } else {
        c
    }
}

pub open spec fn ascii_lower(s: Seq<char>) -> Seq<char> {
    s.map_values(|c: char| ascii_lower_char(c))
}

fn lower_chars(s: &str) -> (r: Vec<char>)
    ensures
        r@ == ascii_lower(s@),
{
    let v = chars_of(s);
    let mut out: Vec<char> = Vec::new();
    let mut i: usize = 0;
    while i < v.len()
        invariant
            v@ == s@,
            i <= v@.len(),
            out@ == v@.take(i as int).map_values(|c: char| ascii_lower_char(c)),
        decreases v@.len() - i,
    {
        let c = v[i];
        let l = if 'A' <= c && c <= 'Z' {
            (((c as u32) + 32) as u8) as char
        } else {
            c
        };
        out.push(l);
        i = i + 1;
        assert(out@ =~= v@.take(i as int).map_values(|c: char| ascii_lower_char(c)));
    }
    assert(v@.take(i as int) =~= v@);
    out
}

fn lower_is(lower: &Vec<char>, word: &str) -> (r: bool)
    ensures
        r == (lower@ == word@),
{
    let w = chars_of(word);
    same_chars(lower, &w)
}

/// The log level a configuration value names, compared without regard to
/// ASCII case; an unset value means `Error`.
pub open spec fn log_level_spec(value: Option<Seq<char>>) -> Option<LogLevel> {
    match value {
        None => Some(LogLevel::Error),
        Some(v) => if ascii_lower(v) == "error"@ {
            Some(LogLevel::Error)
        } else if ascii_lower(v) == "off"@ {
            Some(LogLevel::Off)
        } else if ascii_lower(v) == "info"@ {
            Some(LogLevel::Info)
        } else if ascii_lower(v) == "debug"@ {
            Some(LogLevel::Debug)
        } else {
            None
        },
    }
}

pub open spec fn opt_view(value: Option<&str>) -> Option<Seq<char>> {
    match value {
        Some(v) => Some(v@),
        None => None,
    }
}

/// Parses a log level: `off`, `error`, `info` or `debug` in any ASCII case.
pub fn parse_log_level(value: Option<&str>) -> (r: Result<LogLevel, &'static str>)
    ensures
        match log_level_spec(opt_view(value)) {
            Some(level) => r == Ok::<LogLevel, &'static str>(level),
            None => r is Err && r->Err_0@ == "expected off, error, info, or debug"@,
        },
{
    match value {
        None => Ok(LogLevel::Error),
        Some(v) => {
            let lower = lower_chars(v);
            if lower_is(&lower, "error") {
                Ok(LogLevel::Error)
            } else if lower_is(&lower, "off") {
                Ok(LogLevel::Off)
            } else if lower_is(&lower, "info") {
                Ok(LogLevel::Info)
            } else if lower_is(&lower, "debug") {
                Ok(LogLevel::Debug)
            } else {
                Err("expected off, error, info, or debug")
            }
        },
    }
}

/// The level a configuration value resolves to, and the warning to give:
/// for a valid value its level and no warning; for an invalid one `Error`
/// and the reason it is invalid.
pub fn log_level_resolution(value: Option<&str>) -> (r: (LogLevel, Option<&'static str>))
    ensures
        match log_level_spec(opt_view(value)) {
            Some(level) => r.0 == level && r.1 is None,
            None => r.0 == LogLevel::Error && (r.1 matches Some(m) && m@
                == "expected off, error, info, or debug"@),
        },
{
    match parse_log_level(value) {
        Ok(level) => (level, None),
        Err(reason) => (LogLevel::Error, Some(reason)),
    }
}

/// Resolves a log level, reporting an invalid value through `warn` exactly
/// once, with the reason, and falling back to `Error`; a valid value is not
/// reported. `warn` runs only on the warning `log_level_resolution` gives.
pub fn resolve_log_level<F: FnOnce(&str)>(value: Option<&str>, warn: F) -> (r: LogLevel)
    requires
        forall|s: &str| #[trigger] call_requires(warn, (s,)),
    ensures
        r == (match log_level_spec(opt_view(value)) {
            Some(level) => level,
            None => LogLevel::Error,
        }),
        log_level_spec(opt_view(value)) is None ==> exists|s: &str|
            s@ == "expected off, error, info, or debug"@ && #[trigger] call_ensures(warn, (s,), ()),
{
    let (level, warning) = log_level_resolution(value);
    if let Some(reason) = warning {
        warn(reason);
    }
    level
}

/// The addressing metadata a renderer command carries.
#[derive(Clone, Copy, Debug, PartialEq, Eq, Structural)]
pub struct CommandMeta {
    pub surface_id: u32,
    pub epoch: u32,
    pub after_revision: u32,
    pub request_id: u32,
    pub node_id: u32,
}

/// Whether a command may be applied to its surface.
#[derive(Debug, PartialEq, Eq)]
pub enum CommandAdmission {
    Accepted,
    Rejected(String),
}

/// Admits a command only when it addresses the surface's current id and
/// epoch and was issued after the surface's current revision. `actual` is the
/// surface's `(surface id, epoch, revision)`.
pub fn check_command_metadata(meta: CommandMeta, actual: (u32, u32, u32)) -> (r: CommandAdmission)
    ensures
        meta.surface_id != actual.0 || meta.epoch != actual.1 ==> (r matches CommandAdmission::Rejected(
            m,
        ) && m@ == "surface or epoch mismatch"@),
        meta.surface_id == actual.0 && meta.epoch == actual.1 && meta.after_revision != actual.2
            ==> (r matches CommandAdmission::Rejected(m) && m@ == "command revision is stale"@),
        r is Accepted <==> (meta.surface_id == actual.0 && meta.epoch == actual.1
            && meta.after_revision == actual.2),
{
    if meta.surface_id != actual.0 || meta.epoch != actual.1 {
        return CommandAdmission::Rejected(owned("surface or epoch mismatch"));
    }
    if meta.after_revision != actual.2 {
        return CommandAdmission::Rejected(owned("command revision is stale"));
    }
    CommandAdmission::Accepted
}

fn contains_id(ids: &Vec<u32>, id: u32) -> (r: bool)
    ensures
        r == ids@.contains(id),
{
    let mut i: usize = 0;
    while i < ids.len()
        invariant
            i <= ids@.len(),
            forall|j: int| 0 <= j < i ==> ids@[j] != id,
        decreases ids@.len() - i,
    {
        if ids[i] == id {
            assert(ids@[i as int] == id);
            return true;
        }
        i = i + 1;
    }
    false
}

/// The host-allocated surface ids: the next candidate, the ids of open
/// surfaces, and the ids of surfaces that were retired.
pub struct SurfaceIds {
    pub next_surface_id: u32,
    pub surfaces: Vec<u32>,
    pub retired_surface_ids: Vec<u32>,
}

/// An id that can be handed out: nonzero, neither open nor retired.
pub open spec fn free_id(ids: &SurfaceIds, id: u32) -> bool {
    id != 0 && !ids.surfaces@.contains(id) && !ids.retired_surface_ids@.contains(id)
}

impl SurfaceIds {
    /// No surfaces yet; allocation starts at 1.
    pub fn new() -> (r: SurfaceIds)
        ensures
            r.next_surface_id == 1,
            r.surfaces@.len() == 0,
            r.retired_surface_ids@.len() == 0,
    {
        SurfaceIds { next_surface_id: 1, surfaces: Vec::new(), retired_surface_ids: Vec::new() }
    }

    /// Allocates the smallest free id at or after the next candidate. The id
    /// `u32::MAX` is never handed out (the candidate after it would
    /// overflow), and 0 marks an exhausted id space.
    pub fn allocate_surface_id(&mut self) -> (r: Result<u32, String>)
        ensures
            final(self).surfaces@ == old(self).surfaces@,
            final(self).retired_surface_ids@ == old(self).retired_surface_ids@,
            match r {
                Ok(id) => {
                    &&& old(self).next_surface_id != 0
                    &&& old(self).next_surface_id <= id < u32::MAX
                    &&& free_id(old(self), id)
                    &&& forall|k: u32|
                        old(self).next_surface_id <= k < id ==> !free_id(old(self), k)
                    &&& final(self).next_surface_id == id + 1
                },
                Err(m) => {
                    &&& m@ == "surface id space exhausted"@
                    &&& old(self).next_surface_id != 0 ==> forall|k: u32|
                        old(self).next_surface_id <= k < u32::MAX ==> !free_id(old(self), k)
                    &&& final(self).next_surface_id == (if old(self).next_surface_id == 0 {
                        0
                    } else {
                        u32::MAX
                    })
                },
            },
    {
        let start = self.next_surface_id;
        loop
            invariant
                self.surfaces@ == old(self).surfaces@,
                self.retired_surface_ids@ == old(self).retired_surface_ids@,
                start == old(self).next_surface_id,
                start == 0 ==> self.next_surface_id == 0,
                start != 0 ==> start <= self.next_surface_id,
                forall|k: u32| start <= k < self.next_surface_id ==> !free_id(old(self), k),
            decreases u32::MAX - self.next_surface_id,
        {
            let id = self.next_surface_id;
            if id == 0 {
                return Err(owned("surface id space exhausted"));
            }
            if id == u32::MAX {
                return Err(owned("surface id space exhausted"));
            }
            self.next_surface_id = id + 1;
            if !contains_id(&self.surfaces, id) && !contains_id(&self.retired_surface_ids, id) {
                return Ok(id);
            }
        }
    }

    /// Records that a surface with this id is open.
    pub fn open(&mut self, id: u32)
        ensures
            final(self).surfaces@ == old(self).surfaces@.push(id),
            final(self).retired_surface_ids@ == old(self).retired_surface_ids@,
            final(self).next_surface_id == old(self).next_surface_id,
    {
        self.surfaces.push(id);
    }

    /// Records that a surface closed: its id is retired for good.
    pub fn retire(&mut self, id: u32)
        ensures
            !final(self).surfaces@.contains(id),
            forall|k: u32| k != id ==> (final(self).surfaces@.contains(k) == old(self).surfaces@.contains(k)),
            final(self).retired_surface_ids@ == old(self).retired_surface_ids@.push(id),
            final(self).next_surface_id == old(self).next_surface_id,
    {
        let mut kept: Vec<u32> = Vec::new();
        let mut i: usize = 0;
        while i < self.surfaces.len()
            invariant
                i <= self.surfaces@.len(),
                self.surfaces@ == old(self).surfaces@,
                forall|k: u32| k != id ==> (kept@.contains(k) == self.surfaces@.take(i as int).contains(k)),
                !kept@.contains(id),
            decreases self.surfaces@.len() - i,
        {
            let x = self.surfaces[i];
            let ghost before = kept@;
            let ghost prefix = self.surfaces@.take(i as int);
            proof {
                assert(self.surfaces@.take(i as int + 1) =~= prefix.push(x));
            }
            if x != id {
                kept.push(x);
            }
            proof {
                assert forall|k: u32| k != id implies (kept@.contains(k) == prefix.push(x).contains(
                    k,
                )) by {
                    if prefix.push(x).contains(k) {
                        let j = choose|j: int| 0 <= j < prefix.push(x).len() && prefix.push(x)[j] == k;
                        if j < prefix.len() {
                            assert(prefix.contains(k));
                            assert(before.contains(k));
                            let q = choose|q: int| 0 <= q < before.len() && before[q] == k;
                            assert(kept@[q] == k);
                        } else {
                            assert(kept@[kept@.len() - 1] == k);
                        }
                    }
                    if kept@.contains(k) {
                        let q = choose|q: int| 0 <= q < kept@.len() && kept@[q] == k;
                        if q < before.len() {
                            assert(before[q] == k);
                            assert(before.contains(k));
                            let j = choose|j: int| 0 <= j < prefix.len() && prefix[j] == k;
                            assert(prefix.push(x)[j] == k);
                        } else {
                            assert(prefix.push(x)[prefix.len() as int] == k);
                        }
                    }
                }
                if kept@.contains(id) {
                    let q = choose|q: int| 0 <= q < kept@.len() && kept@[q] == id;
                    if q < before.len() {
                        assert(before[q] == id);
                    }
                }
            }
            i = i + 1;
        }
        proof {
            assert(self.surfaces@.take(i as int) =~= self.surfaces@);
        }
        self.surfaces = kept;
        self.retired_surface_ids.push(id);
    }
}

/// A retired id is never allocated again: once `retire` recorded it, it is
/// not free, and `allocate_surface_id` only returns free ids.
pub proof fn law_retired_ids_never_reallocated(ids: &SurfaceIds, id: u32)
    requires
        ids.retired_surface_ids@.contains(id),
    ensures
        !free_id(ids, id),
{
}

/// The renderer protocol version the host speaks.
pub const PROTOCOL_VERSION: u32 = 5;

/// The decimal digits of `n`, most significant first.
pub open spec fn decimal_spec(n: nat) -> Seq<char>
    decreases n,
{
    if n < 10 {
        seq![(('0' as u32) + n) as char]
    } else {
        decimal_spec(n / 10) + seq![(('0' as u32) + n % 10) as char]
    }
}

fn digit_text(d: u32) -> (r: &'static str)
    requires
        d < 10,
    ensures
        r@ == seq![(('0' as u32) + d) as char],
{
    proof {
        reveal_strlit("0");
        reveal_strlit("1");
        reveal_strlit("2");
        reveal_strlit("3");
        reveal_strlit("4");
        reveal_strlit("5");
        reveal_strlit("6");
        reveal_strlit("7");
        reveal_strlit("8");
        reveal_strlit("9");
    }
    let r = if d == 0 {
        "0"
    } else if d == 1 {
        "1"
    } else if d == 2 {
        "2"
    } else if d == 3 {
        "3"
    } else if d == 4 {
        "4"
    } else if d == 5 {
        "5"
    } else if d == 6 {
        "6"
    } else if d == 7 {
        "7"
    } else if d == 8 {
        "8"
    } else {
        "9"
    };
    assert(r@ =~= seq![(('0' as u32) + d) as char]);
    r
}

/// `n` written in decimal (`u32`'s `Display`).
pub fn decimal(n: u32) -> (r: String)
    ensures
        r@ == decimal_spec(n as nat),
    decreases n,
{
    if n < 10 {
        owned(digit_text(n))
    } else {
        let mut head = decimal(n / 10);
        head.append(digit_text(n % 10));
        head
    }
}

/// `n` written in decimal (`usize`'s `Display`).
pub fn decimal_usize(n: usize) -> (r: String)
    ensures
        r@ == decimal_spec(n as nat),
    decreases n,
{
    if n < 10 {
        owned(digit_text(n as u32))
    } else {
        let mut head = decimal_usize(n / 10);
        head.append(digit_text((n % 10) as u32));
        head
    }
}

/// Whether the calling thread already reserves the application's stack
/// budget, so the application runs on it instead of a new thread.
pub fn runs_inline(reserved: Option<usize>, budget: usize) -> (r: bool)
    ensures
        r == (reserved matches Some(b) && b >= budget),
{
    match reserved {
        Some(b) => b >= budget,
        None => false,
    }
}

/// The line reporting the application thread's stack, with its level: an
/// error when the reservation falls below the default budget. Nothing is
/// reported when the reservation is unknown.
pub fn app_stack_report(reserved: Option<usize>) -> (r: Option<(LogLevel, String)>)
    ensures
        match reserved {
            None => r is None,
            Some(b) => r matches Some(line) && if b >= DEFAULT_APP_STACK_BYTES {
                line.0 == LogLevel::Info && line.1@ == "application thread stack: "@
                    + decimal_spec(b as nat) + " bytes reserved"@
            } else {
                line.0 == LogLevel::Error && line.1@ == "application thread reserves only "@
                    + decimal_spec(b as nat) + " bytes of stack, below the "@ + decimal_spec(
                    DEFAULT_APP_STACK_BYTES as nat,
                ) + STACK_WARNING_TAIL@
            },
        },
{
    match reserved {
        None => None,
        Some(b) => {
            if b >= DEFAULT_APP_STACK_BYTES {
                let mut line = owned("application thread stack: ");
                line.append(decimal_usize(b).as_str());
                line.append(" bytes reserved");
                Some((LogLevel::Info, line))
            } else {
                let mut line = owned("application thread reserves only ");
                line.append(decimal_usize(b).as_str());
                line.append(" bytes of stack, below the ");
                line.append(decimal_usize(DEFAULT_APP_STACK_BYTES).as_str());
                line.append(STACK_WARNING_TAIL);
                Some((LogLevel::Error, line))
            }
        },
    }
}

/// The end of the warning about an undersized application stack.
pub const STACK_WARNING_TAIL: &'static str = " byte default GPUI's recursive layout and paint passes need on Windows; unset SOLID_GPUI_APP_STACK_BYTES unless this budget was measured";

/// The `Debug` name of a runtime mode.
pub fn runtime_mode_name(mode: RuntimeMode) -> (r: &'static str)
    ensures
        r@ == runtime_mode_name_spec(mode),
{
    match mode {
        RuntimeMode::Process => "Process",
        RuntimeMode::Embedded => "Embedded",
        RuntimeMode::QuickJs => "QuickJs",
        RuntimeMode::QuickJsDev => "QuickJsDev",
    }
}

pub open spec fn runtime_mode_name_spec(mode: RuntimeMode) -> Seq<char> {
    match mode {
        RuntimeMode::Process => "Process"@,
        RuntimeMode::Embedded => "Embedded"@,
        RuntimeMode::QuickJs => "QuickJs"@,
        RuntimeMode::QuickJsDev => "QuickJsDev"@,
    }
}

/// The line the host logs when it starts a renderer.
pub fn startup_diagnostic(mode: RuntimeMode, entry: String, pid: u32) -> (r: String)
    ensures
        r@ == "starting mode="@ + runtime_mode_name_spec(mode) + " protocol=v"@ + decimal_spec(
            PROTOCOL_VERSION as nat,
        ) + " entry="@ + entry@ + " pid="@ + decimal_spec(pid as nat),
{
    let mut out = owned("starting mode=");
    out.append(runtime_mode_name(mode));
    out.append(" protocol=v");
    let version = decimal(PROTOCOL_VERSION);
    out.append(version.as_str());
    out.append(" entry=");
    out.append(entry.as_str());
    out.append(" pid=");
    let p = decimal(pid);
    out.append(p.as_str());
    out
}

/// What the renderer entry is called in diagnostics: the first renderer
/// argument; for a process renderer without arguments, the configured command
/// or `bun`.
pub fn renderer_entry(
    mode: RuntimeMode,
    renderer_args: &Vec<String>,
    configured_command: Option<String>,
) -> (r: String)
    requires
        mode != RuntimeMode::Process ==> renderer_args@.len() > 0,
    ensures
        renderer_args@.len() > 0 ==> r@ == renderer_args@[0]@,
        renderer_args@.len() == 0 ==> r@ == (match configured_command {
            Some(c) => c@,
            None => "bun"@,
        }),
{
    if renderer_args.len() > 0 {
        renderer_args[0].clone()
    } else {
        match configured_command {
            Some(c) => c,
            None => owned("bun"),
        }
    }
}

/// The program and arguments that start a process renderer: the first
/// renderer argument (else the configured command, else `bun`) and the
/// remaining renderer arguments; without renderer arguments, the configured
/// arguments split at white space.
pub fn renderer_command(
    renderer_args: &Vec<String>,
    configured_command: Option<String>,
    configured_args: Option<String>,
) -> (r: (String, Vec<String>))
    ensures
        r.0@ == if renderer_args@.len() > 0 {
            renderer_args@[0]@
        } else {
            match configured_command {
                Some(c) => c@,
                None => "bun"@,
            }
        },
        texts(r.1@) == if renderer_args@.len() > 1 {
            texts(renderer_args@.skip(1))
        } else if renderer_args@.len() == 0 {
            match configured_args {
                Some(a) => words(a@),
                None => Seq::empty(),
            }
        } else {
            Seq::empty()
        },
{
    let program = if renderer_args.len() > 0 {
        owned(renderer_args[0].as_str())
    } else {
        match configured_command {
            Some(c) => c,
            None => owned("bun"),
        }
    };
    let mut args: Vec<String> = Vec::new();
    if renderer_args.len() > 1 {
        let mut i: usize = 1;
        while i < renderer_args.len()
            invariant
                1 <= i <= renderer_args@.len(),
                args@.len() == i - 1,
                texts(args@) == texts(renderer_args@.subrange(1, i as int)),
            decreases renderer_args@.len() - i,
        {
            let w = owned(renderer_args[i].as_str());
            proof {
                assert forall|k: int| 0 <= k < i - 1 implies #[trigger] texts(args@.push(w))[k]
                    == texts(renderer_args@.subrange(1, i + 1))[k] by {
                    assert(texts(args@)[k] == texts(renderer_args@.subrange(1, i as int))[k]);
                }
                assert(texts(args@.push(w)) =~= texts(renderer_args@.subrange(1, i + 1)));
            }
            args.push(w);
            i = i + 1;
        }
        proof {
            assert(renderer_args@.subrange(1, renderer_args@.len() as int) =~= renderer_args@.skip(1));
        }
    } else if renderer_args.len() == 0 {
        if let Some(a) = configured_args {
            args = split_whitespace(a.as_str());
        } else {
            assert(texts(args@) =~= Seq::<Seq<char>>::empty());
        }
    } else {
        assert(texts(args@) =~= Seq::<Seq<char>>::empty());
    }
    (program, args)
}

/// Host capabilities describe local policy; they are not negotiated on the
/// renderer protocol.
#[derive(Clone, Copy, Debug, PartialEq, Eq, Structural)]
pub struct HostCapabilities {
    /// Whether the runner forwards system-notification responses.
    pub notification_responses: bool,
    /// Whether the runner admits renderer keybinding commands.
    pub set_keybindings: bool,
}

/// The default host profile: no extension adapters and a plain root window.
#[derive(Clone, Copy, Debug, Default)]
pub struct DefaultHostProfile;

impl DefaultHostProfile {
    /// The default profile admits notification responses and keybindings.
    pub fn capabilities(&self) -> (r: HostCapabilities)
        ensures
            r.notification_responses,
            r.set_keybindings,
    {
        HostCapabilities { notification_responses: true, set_keybindings: true }
    }
}

/// How the renderer runtime is hosted.
#[derive(Clone, Copy, Debug, PartialEq, Eq, Structural)]
pub enum RuntimeMode {
    Process,
    Embedded,
    QuickJs,
    QuickJsDev,
}

/// What the host command line asks for.
#[derive(Debug, PartialEq, Eq)]
pub enum CliAction {
    Help,
    Version,
    Run { mode: RuntimeMode, renderer_args: Vec<String>, smoke_press: bool },
}

/// Where scanning the host options ended.
pub enum ArgScan {
    Help,
    Version,
    Fail(Seq<char>),
    Done { mode: RuntimeMode, renderer_args: Seq<Seq<char>>, smoke_press: bool },
}

/// The runtime a `--runtime` value names.
pub open spec fn runtime_named(v: Seq<char>) -> Option<RuntimeMode> {
    if v == "process"@ {
        Some(RuntimeMode::Process)
    } else if v == "embedded"@ {
        Some(RuntimeMode::Embedded)
    } else if v == "quickjs"@ {
        Some(RuntimeMode::QuickJs)
    } else if v == "quickjs-dev"@ {
        Some(RuntimeMode::QuickJsDev)
    } else {
        None
    }
}

/// Host options are read until `--` or the first argument that is not an
/// option; everything after belongs to the renderer command.
pub open spec fn scan_args(
    args: Seq<Seq<char>>,
    i: int,
    mode: RuntimeMode,
    renderer: Seq<Seq<char>>,
    smoke: bool,
    host_options: bool,
) -> ArgScan
    decreases args.len() - i,
{
    if i < 0 || i >= args.len() {
        ArgScan::Done { mode, renderer_args: renderer, smoke_press: smoke }
    } else {
        let a = args[i];
        if !host_options {
            scan_args(args, i + 1, mode, renderer.push(a), smoke, false)
        } else if a == "--"@ {
            scan_args(args, i + 1, mode, renderer, smoke, false)
        } else if a == "--help"@ || a == "-h"@ {
            ArgScan::Help
        } else if a == "--version"@ || a == "-V"@ {
            ArgScan::Version
        } else if a == "--runtime"@ {
            if i + 1 >= args.len() {
                ArgScan::Fail("--runtime requires `process`, `embedded`, or `quickjs`"@)
            } else {
                match runtime_named(args[i + 1]) {
                    Some(m) => scan_args(args, i + 2, m, renderer, smoke, true),
                    None => ArgScan::Fail("unknown runtime `"@ + args[i + 1] + "`"@),
                }
            }
        } else if a == "--embedded"@ {
            scan_args(args, i + 1, RuntimeMode::Embedded, renderer, smoke, true)
        } else if a == "--smoke-press"@ {
            scan_args(args, i + 1, mode, renderer, true, true)
        } else if a.len() > 0 && a[0] == '-' {
            ArgScan::Fail("unknown host option `"@ + a + "`"@)
        } else {
            scan_args(args, i + 1, mode, renderer.push(a), smoke, false)
        }
    }
}

/// The host command line's meaning: help, version, a run request, or the
/// error message for an unusable combination.
pub enum CliOutcome {
    Help,
    Version,
    Run { mode: RuntimeMode, renderer_args: Seq<Seq<char>>, smoke_press: bool },
    Error(Seq<char>),
}

pub open spec fn host_args_spec(args: Seq<Seq<char>>) -> CliOutcome {
    match scan_args(args, 0, RuntimeMode::Process, Seq::empty(), false, true) {
        ArgScan::Help => CliOutcome::Help,
        ArgScan::Version => CliOutcome::Version,
        ArgScan::Fail(m) => CliOutcome::Error(m),
        ArgScan::Done { mode, renderer_args, smoke_press } => if smoke_press && mode
            != RuntimeMode::Embedded {
            CliOutcome::Error("--smoke-press requires `--runtime embedded`"@)
        } else if mode == RuntimeMode::Embedded && renderer_args.len() == 0 {
            CliOutcome::Error("embedded runtime requires an explicit application entry"@)
        } else if mode == RuntimeMode::QuickJsDev && renderer_args.len() != 2 {
            CliOutcome::Error("quickjs-dev requires a bundle and loopback tooling endpoint"@)
        } else if mode == RuntimeMode::QuickJs && renderer_args.len() != 1 {
            CliOutcome::Error("quickjs runtime requires exactly one bundled JavaScript entry"@)
        } else {
            CliOutcome::Run { mode, renderer_args, smoke_press }
        },
    }
}

pub open spec fn strings_view(v: Seq<String>) -> Seq<Seq<char>> {
    v.map_values(|s: String| s@)
}

pub open spec fn cli_result_view(r: Result<CliAction, String>) -> CliOutcome {
    match r {
        Ok(CliAction::Help) => CliOutcome::Help,
        Ok(CliAction::Version) => CliOutcome::Version,
        Ok(CliAction::Run { mode, renderer_args, smoke_press }) => CliOutcome::Run {
            mode,
            renderer_args: strings_view(renderer_args@),
            smoke_press,
        },
        Err(m) => CliOutcome::Error(m@),
    }
}

fn arg_is(arg: &String, word: &str) -> (r: bool)
    ensures
        r == (arg@ == word@),
{
    same_text(arg.as_str(), word)
}

fn runtime_exec(v: &String) -> (r: Option<RuntimeMode>)
    ensures
        r == runtime_named(v@),
{
    if arg_is(v, "process") {
        Some(RuntimeMode::Process)
    } else if arg_is(v, "embedded") {
        Some(RuntimeMode::Embedded)
    } else if arg_is(v, "quickjs") {
        Some(RuntimeMode::QuickJs)
    } else if arg_is(v, "quickjs-dev") {
        Some(RuntimeMode::QuickJsDev)
    } else {
        None
    }
}

/// Parses the host command line (the arguments after the program name).
pub fn parse_host_args(args: &Vec<String>) -> (r: Result<CliAction, String>)
    ensures
        cli_result_view(r) == host_args_spec(strings_view(args@)),
{
    let ghost a = strings_view(args@);
    let mut mode = RuntimeMode::Process;
    let mut renderer_args: Vec<String> = Vec::new();
    let mut smoke_press = false;
    let mut host_options = true;
    let mut index: usize = 0;
    assert(strings_view(renderer_args@) =~= Seq::<Seq<char>>::empty());
    while index < args.len()
        invariant
            a == strings_view(args@),
            index <= args@.len(),
            scan_args(a, index as int, mode, strings_view(renderer_args@), smoke_press, host_options)
                == scan_args(a, 0, RuntimeMode::Process, Seq::empty(), false, true),
        decreases args@.len() - index,
    {
        let arg = &args[index];
        let ghost before = strings_view(renderer_args@);
        if !host_options {
            renderer_args.push(arg.clone());
            index = index + 1;
            proof {
                assert(strings_view(renderer_args@) =~= before.push(a[index - 1]));
            }
            continue;
        }
        if arg_is(arg, "--") {
            host_options = false;
        } else if arg_is(arg, "--help") || arg_is(arg, "-h") {
            return Ok(CliAction::Help);
        } else if arg_is(arg, "--version") || arg_is(arg, "-V") {
            return Ok(CliAction::Version);
        } else if arg_is(arg, "--runtime") {
            index = index + 1;
            if index >= args.len() {
                return Err(owned("--runtime requires `process`, `embedded`, or `quickjs`"));
            }
            let value = &args[index];
            match runtime_exec(value) {
                Some(m) => {
                    mode = m;
                },
                None => {
                    return Err(join3("unknown runtime `", value.as_str(), "`"));
                },
            }
        } else if arg_is(arg, "--embedded") {
            mode = RuntimeMode::Embedded;
        } else if arg_is(arg, "--smoke-press") {
            smoke_press = true;
        } else {
            let chars = chars_of(arg.as_str());
            if chars.len() > 0 && chars[0] == '-' {
                return Err(join3("unknown host option `", arg.as_str(), "`"));
            }
            host_options = false;
            renderer_args.push(arg.clone());
            proof {
                assert(strings_view(renderer_args@) =~= before.push(a[index as int]));
            }
        }
        index = index + 1;
    }
    if smoke_press && mode != RuntimeMode::Embedded {
        return Err(owned("--smoke-press requires `--runtime embedded`"));
    }
    if mode == RuntimeMode::Embedded && renderer_args.len() == 0 {
        return Err(owned("embedded runtime requires an explicit application entry"));
    }
    if mode == RuntimeMode::QuickJsDev && renderer_args.len() != 2 {
        return Err(owned("quickjs-dev requires a bundle and loopback tooling endpoint"));
    }
    if mode == RuntimeMode::QuickJs && renderer_args.len() != 1 {
        return Err(owned("quickjs runtime requires exactly one bundled JavaScript entry"));
    }
    Ok(CliAction::Run { mode, renderer_args, smoke_press })
}

/// The word that selects a runtime after `--runtime`, as the host's usage
/// and error texts name it.
pub open spec fn runtime_flag(mode: RuntimeMode) -> Seq<char> {
    match mode {
        RuntimeMode::Process => "process"@,
        RuntimeMode::Embedded => "embedded"@,
        RuntimeMode::QuickJs => "quickjs"@,
        RuntimeMode::QuickJsDev => "quickjs-dev"@,
    }
}

/// Once host options end, every remaining argument belongs to the renderer.
proof fn lemma_scan_rest(
    args: Seq<Seq<char>>,
    i: int,
    mode: RuntimeMode,
    renderer: Seq<Seq<char>>,
    smoke: bool,
)
    requires
        0 <= i <= args.len(),
    ensures
        scan_args(args, i, mode, renderer, smoke, false) == (ArgScan::Done {
            mode,
            renderer_args: renderer + args.skip(i),
            smoke_press: smoke,
        }),
    decreases args.len() - i,
{
    if i < args.len() {
        lemma_scan_rest(args, i + 1, mode, renderer.push(args[i]), smoke);
        assert(renderer.push(args[i]) + args.skip(i + 1) =~= renderer + args.skip(i));
    } else {
        assert(renderer + args.skip(i) =~= renderer);
    }
}

/// Every runtime can be chosen, by its own word and no other: `--runtime`
/// followed by a mode's word and a renderer command that the mode accepts
/// runs that command in that mode.
pub proof fn law_every_runtime_is_selectable(mode: RuntimeMode, word: Seq<char>, program: Seq<Seq<char>>)
    requires
        program.len() > 0,
        program[0].len() > 0,
        program[0][0] != '-',
        mode == RuntimeMode::QuickJs ==> program.len() == 1,
        mode == RuntimeMode::QuickJsDev ==> program.len() == 2,
    ensures
        runtime_named(runtime_flag(mode)) == Some(mode),
        runtime_named(word) == Some(mode) ==> word == runtime_flag(mode),
        host_args_spec(seq!["--runtime"@, runtime_flag(mode)] + program) == (CliOutcome::Run {
            mode,
            renderer_args: program,
            smoke_press: false,
        }),
{
    reveal_strlit("process");
    reveal_strlit("embedded");
    reveal_strlit("quickjs");
    reveal_strlit("quickjs-dev");
    reveal_strlit("--runtime");
    reveal_strlit("--");
    reveal_strlit("--help");
    reveal_strlit("-h");
    reveal_strlit("--version");
    reveal_strlit("-V");
    reveal_strlit("--embedded");
    reveal_strlit("--smoke-press");
    assert("process"@[0] == 'p' && "embedded"@[0] == 'e' && "quickjs"@[0] == 'q');
    assert("quickjs"@.len() == 7 && "quickjs-dev"@.len() == 11);
    assert("embedded"@ != "process"@);
    assert("quickjs"@ != "process"@ && "quickjs"@ != "embedded"@);
    assert("quickjs-dev"@ != "process"@ && "quickjs-dev"@ != "embedded"@ && "quickjs-dev"@
        != "quickjs"@);
    let args = seq!["--runtime"@, runtime_flag(mode)] + program;
    assert(args[0] == "--runtime"@);
    assert(args[1] == runtime_flag(mode));
    assert(args[2] == program[0]);
    assert("--runtime"@.len() == 9 && "--"@.len() == 2 && "-h"@.len() == 2 && "-V"@.len() == 2);
    assert("--help"@.len() == 6 && "--version"@.len() == 9 && "--runtime"@[2] == 'r'
        && "--version"@[2] == 'v');
    assert("--runtime"@ != "--"@ && "--runtime"@ != "--help"@ && "--runtime"@ != "-h"@);
    assert("--runtime"@ != "--version"@ && "--runtime"@ != "-V"@);
    assert(scan_args(args, 0, RuntimeMode::Process, Seq::empty(), false, true) == scan_args(
        args,
        2,
        mode,
        Seq::empty(),
        false,
        true,
    ));
    let a = program[0];
    assert("--"@[0] == '-' && "--help"@[0] == '-' && "-h"@[0] == '-' && "--version"@[0] == '-');
    assert("-V"@[0] == '-' && "--runtime"@[0] == '-' && "--embedded"@[0] == '-'
        && "--smoke-press"@[0] == '-');
    assert(a != "--"@ && a != "--help"@ && a != "-h"@ && a != "--version"@ && a != "-V"@);
    assert(a != "--runtime"@ && a != "--embedded"@ && a != "--smoke-press"@);
    lemma_scan_rest(args, 3, mode, seq![a], false);
    assert(seq![a] + args.skip(3) =~= program);
    assert(scan_args(args, 2, mode, Seq::empty(), false, true) == scan_args(
        args,
        3,
        mode,
        Seq::<Seq<char>>::empty().push(a),
        false,
        false,
    ));
    assert(Seq::<Seq<char>>::empty().push(a) =~= seq![a]);
}

} // verus!

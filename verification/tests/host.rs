use solid_gpui::host::log_level_resolution;
use solid_gpui::host::{
    app_stack_report, decimal_usize, renderer_command, runs_inline,
    check_command_metadata, decimal, parse_host_args, parse_log_level, parse_stack_budget,
    renderer_entry, resolve_log_level, should_log, startup_diagnostic, CliAction, CommandAdmission,
    CommandMeta, DefaultHostProfile, LogLevel, RuntimeMode, SurfaceIds, DEFAULT_APP_STACK_BYTES,
};

fn args(values: &[&str]) -> Vec<String> {
    values.iter().map(|v| v.to_string()).collect()
}

#[test]
fn stack_budget_rejects_unusable_settings_instead_of_defaulting() {
    assert_eq!(parse_stack_budget(None), Ok(DEFAULT_APP_STACK_BYTES));
    assert_eq!(parse_stack_budget(Some("4194304")), Ok(4194304));
    assert_eq!(parse_stack_budget(Some(" 4194304 ")), Ok(4194304));
    assert!(parse_stack_budget(Some("0")).is_err());
    assert!(parse_stack_budget(Some("16MiB")).is_err());
    assert!(parse_stack_budget(Some("")).is_err());
}

#[test]
fn stack_budget_messages_name_the_setting() {
    assert_eq!(DEFAULT_APP_STACK_BYTES, 16 * 1024 * 1024);
    assert_eq!(
        parse_stack_budget(Some("0")).unwrap_err(),
        "expected a byte count greater than zero"
    );
    assert_eq!(
        parse_stack_budget(Some("16MiB")).unwrap_err(),
        "\"16MiB\" is not a byte count"
    );
    assert_eq!(parse_stack_budget(Some("+42")), Ok(42));
    assert!(parse_stack_budget(Some("+")).is_err());
    assert!(parse_stack_budget(Some("-1")).is_err());
    assert!(parse_stack_budget(Some("99999999999999999999999")).is_err());
    assert_eq!(parse_stack_budget(Some("\t8\n")), Ok(8));
}

#[test]
fn parses_log_levels_case_insensitively() {
    assert_eq!(parse_log_level(None), Ok(LogLevel::Error));
    assert_eq!(parse_log_level(Some("off")), Ok(LogLevel::Off));
    assert_eq!(parse_log_level(Some("INFO")), Ok(LogLevel::Info));
    assert_eq!(parse_log_level(Some("Debug")), Ok(LogLevel::Debug));
}

#[test]
fn invalid_log_level_falls_back_to_error_and_warns_once() {
    let mut warnings = 0;
    let level = resolve_log_level(Some("verbose"), |_| warnings += 1);
    assert_eq!(level, LogLevel::Error);
    assert_eq!(warnings, 1);
}

#[test]
fn log_levels_filter_by_order() {
    assert_eq!(
        parse_log_level(Some("verbose")),
        Err("expected off, error, info, or debug")
    );
    assert!(should_log(LogLevel::Info, LogLevel::Error));
    assert!(should_log(LogLevel::Info, LogLevel::Info));
    assert!(!should_log(LogLevel::Error, LogLevel::Info));
    assert!(!should_log(LogLevel::Off, LogLevel::Error));
    let mut warnings = 0;
    assert_eq!(resolve_log_level(Some("DEBUG"), |_| warnings += 1), LogLevel::Debug);
    assert_eq!(warnings, 0);
}

#[test]
fn command_admission_centralizes_surface_epoch_and_revision_checks() {
    let meta = CommandMeta {
        surface_id: 7,
        epoch: 3,
        after_revision: 42,
        request_id: 1,
        node_id: 1,
    };
    assert_eq!(
        check_command_metadata(meta, (7, 3, 42)),
        CommandAdmission::Accepted
    );
    assert_eq!(
        check_command_metadata(meta, (8, 3, 42)),
        CommandAdmission::Rejected("surface or epoch mismatch".to_owned())
    );
    assert_eq!(
        check_command_metadata(meta, (7, 3, 41)),
        CommandAdmission::Rejected("command revision is stale".to_owned())
    );
}

#[test]
fn surface_ids_are_host_allocated_without_implicit_surface_entries() {
    let mut registry = SurfaceIds::new();
    assert_eq!(registry.allocate_surface_id(), Ok(1));
    assert_eq!(registry.allocate_surface_id(), Ok(2));
    assert!(registry.surfaces.is_empty());
}

#[test]
fn surface_id_allocator_rejects_exhaustion() {
    let mut registry = SurfaceIds::new();
    registry.next_surface_id = u32::MAX;
    assert_eq!(
        registry.allocate_surface_id(),
        Err("surface id space exhausted".to_owned())
    );
}

#[test]
fn retired_surface_ids_are_never_reallocated() {
    let mut registry = SurfaceIds::new();
    registry.retired_surface_ids.push(1);
    assert_eq!(registry.allocate_surface_id(), Ok(2));
}

#[test]
fn open_and_retired_ids_are_skipped() {
    let mut registry = SurfaceIds::new();
    registry.open(1);
    registry.open(3);
    assert_eq!(registry.allocate_surface_id(), Ok(2));
    assert_eq!(registry.allocate_surface_id(), Ok(4));
    registry.retire(3);
    assert!(!registry.surfaces.contains(&3));
    assert!(registry.retired_surface_ids.contains(&3));
    assert_eq!(registry.next_surface_id, 5);
    registry.next_surface_id = 0;
    assert!(registry.allocate_surface_id().is_err());
}

#[test]
fn parses_version_before_renderer_command() {
    assert_eq!(
        parse_host_args(&args(&["--version"])),
        Ok(CliAction::Version)
    );
}

#[test]
fn parses_help_before_renderer_command() {
    assert_eq!(parse_host_args(&args(&["--help"])), Ok(CliAction::Help));
}

#[test]
fn parses_embedded_runtime_entry() {
    assert!(parse_host_args(&args(&["--runtime", "embedded"])).is_err());
    assert_eq!(
        parse_host_args(&args(&["--runtime", "embedded", "entry.ts"])),
        Ok(CliAction::Run {
            mode: RuntimeMode::Embedded,
            renderer_args: args(&["entry.ts"]),
            smoke_press: false,
        })
    );
    assert!(parse_host_args(&args(&["--runtime", "quickjs"])).is_err());
    assert!(parse_host_args(&args(&["--runtime", "quickjs", "one.js", "two.js"])).is_err());
    assert_eq!(
        parse_host_args(&args(&["--runtime", "quickjs", "app.js"])),
        Ok(CliAction::Run {
            mode: RuntimeMode::QuickJs,
            renderer_args: args(&["app.js"]),
            smoke_press: false,
        })
    );
}

#[test]
fn separator_preserves_renderer_help_flag() {
    assert_eq!(
        parse_host_args(&args(&["--", "bun", "run", "app.ts", "--help"])),
        Ok(CliAction::Run {
            mode: RuntimeMode::Process,
            renderer_args: args(&["bun", "run", "app.ts", "--help"]),
            smoke_press: false,
        })
    );
}

#[test]
fn renderer_command_stops_host_option_parsing() {
    assert_eq!(
        parse_host_args(&args(&["bun", "run", "app.ts", "--version"])),
        Ok(CliAction::Run {
            mode: RuntimeMode::Process,
            renderer_args: args(&["bun", "run", "app.ts", "--version"]),
            smoke_press: false,
        })
    );
}

#[test]
fn embedded_smoke_press_is_not_a_process_renderer_command() {
    assert_eq!(
        parse_host_args(&args(&["--smoke-press"])),
        Err("--smoke-press requires `--runtime embedded`".to_owned())
    );
    assert_eq!(
        parse_host_args(&args(&[
            "--runtime",
            "embedded",
            "--smoke-press",
            "entry.ts"
        ])),
        Ok(CliAction::Run {
            mode: RuntimeMode::Embedded,
            renderer_args: args(&["entry.ts"]),
            smoke_press: true,
        })
    );
}

#[test]
fn unknown_host_option_is_rejected_before_renderer_command() {
    assert_eq!(
        parse_host_args(&args(&["--not-a-host-option"])),
        Err("unknown host option `--not-a-host-option`".to_owned())
    );
}

#[test]
fn runtime_values_and_dev_endpoints_are_checked() {
    assert_eq!(
        parse_host_args(&args(&["--runtime"])),
        Err("--runtime requires `process`, `embedded`, or `quickjs`".to_owned())
    );
    assert_eq!(
        parse_host_args(&args(&["--runtime", "node"])),
        Err("unknown runtime `node`".to_owned())
    );
    assert_eq!(
        parse_host_args(&args(&["--runtime", "quickjs-dev", "app.js"])),
        Err("quickjs-dev requires a bundle and loopback tooling endpoint".to_owned())
    );
    assert_eq!(
        parse_host_args(&args(&["--embedded", "entry.ts"])),
        Ok(CliAction::Run {
            mode: RuntimeMode::Embedded,
            renderer_args: args(&["entry.ts"]),
            smoke_press: false,
        })
    );
    assert_eq!(
        parse_host_args(&args(&[])),
        Ok(CliAction::Run {
            mode: RuntimeMode::Process,
            renderer_args: Vec::new(),
            smoke_press: false,
        })
    );
    assert_eq!(parse_host_args(&args(&["-V"])), Ok(CliAction::Version));
    assert_eq!(parse_host_args(&args(&["-h", "--bogus"])), Ok(CliAction::Help));
}

#[test]
fn startup_diagnostics_include_protocol_version() {
    assert_eq!(
        startup_diagnostic(RuntimeMode::Process, "bun".to_owned(), 42),
        "starting mode=Process protocol=v5 entry=bun pid=42"
    );
    assert_eq!(decimal(0), "0");
    assert_eq!(decimal(4294967295), "4294967295");
    assert_eq!(renderer_entry(RuntimeMode::Process, &Vec::new(), None), "bun");
    assert_eq!(
        renderer_entry(RuntimeMode::Process, &Vec::new(), Some("deno".to_owned())),
        "deno"
    );
    assert_eq!(
        renderer_entry(RuntimeMode::QuickJs, &args(&["app.js"]), None),
        "app.js"
    );
    let caps = DefaultHostProfile.capabilities();
    assert!(caps.notification_responses && caps.set_keybindings);
}

#[test]
fn application_stack_is_reported_against_the_default_budget() {
    assert_eq!(app_stack_report(None), None);
    assert_eq!(
        app_stack_report(Some(16 * 1024 * 1024)),
        Some((LogLevel::Info, "application thread stack: 16777216 bytes reserved".to_string()))
    );
    assert_eq!(
        app_stack_report(Some(1048576)),
        Some((
            LogLevel::Error,
            "application thread reserves only 1048576 bytes of stack, below the 16777216 byte default GPUI's recursive layout and paint passes need on Windows; unset SOLID_GPUI_APP_STACK_BYTES unless this budget was measured".to_string()
        ))
    );
    assert!(runs_inline(Some(32), 16));
    assert!(runs_inline(Some(16), 16));
    assert!(!runs_inline(Some(15), 16));
    assert!(!runs_inline(None, 16));
    assert_eq!(decimal_usize(0), "0");
    assert_eq!(decimal_usize(1234567890), "1234567890");
}

#[test]
fn process_renderer_commands_take_their_arguments() {
    let (program, words) = renderer_command(&args(&["node", "app.js", "--flag"]), None, None);
    assert_eq!(program, "node");
    assert_eq!(words, vec!["app.js".to_string(), "--flag".to_string()]);
    let (program, words) = renderer_command(&args(&["node"]), None, Some("ignored".into()));
    assert_eq!(program, "node");
    assert!(words.is_empty());
    let (program, words) =
        renderer_command(&vec![], Some("deno".into()), Some("  run \t main.ts\n".into()));
    assert_eq!(program, "deno");
    assert_eq!(words, vec!["run".to_string(), "main.ts".to_string()]);
    let (program, words) = renderer_command(&vec![], None, None);
    assert_eq!(program, "bun");
    assert!(words.is_empty());
}

#[test]
fn log_levels_resolve_with_their_warning() {
    assert_eq!(log_level_resolution(Some("Info")), (LogLevel::Info, None));
    assert_eq!(log_level_resolution(None), (LogLevel::Error, None));
    assert_eq!(
        log_level_resolution(Some("verbose")),
        (LogLevel::Error, Some("expected off, error, info, or debug"))
    );
    let mut reasons = Vec::new();
    assert_eq!(resolve_log_level(Some("verbose"), |r| reasons.push(r.to_string())), LogLevel::Error);
    assert_eq!(reasons, vec!["expected off, error, info, or debug".to_string()]);
    reasons.clear();
    assert_eq!(resolve_log_level(Some("off"), |r| reasons.push(r.to_string())), LogLevel::Off);
    assert!(reasons.is_empty());
}

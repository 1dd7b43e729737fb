use declimiter::cli::{direct_plan, hides_console, init_search, startup_mode, DecLimiterArgs, InputStep, Key, ProcessSearch, SearchStep, SpeedInput, StartupMode};
use declimiter::config::{config_dir, config_path, processes_path};
use declimiter::groups::build_groups;
use declimiter::limiter::LimitConfig;
use declimiter::publisher::{lookups_go_on, one_more_attempt, PublisherCache};
use declimiter::rules::LimitRules;
use declimiter::settings::{AppConfig, LimitFlags, ProcessConfig, ProcessLimitState};
use declimiter::traffic::ProcessTraffic;
use declimiter::units::{format_bytes, format_speed, speed_shade, SpeedShade, SpeedUnit};
use declimiter::util::{find_process, process_pairs};

#[test]
fn unit_labels_and_names() {
    let all = SpeedUnit::all();
    let labels: Vec<&str> = all.iter().map(|u| u.label()).collect();
    assert_eq!(labels, vec!["B/s", "KB/s", "MB/s", "GB/s"]);
    let names: Vec<&str> = all.iter().map(|u| u.as_str()).collect();
    assert_eq!(names, vec!["Bps", "KBps", "MBps", "GBps"]);
    let mults: Vec<u64> = all.iter().map(|u| u.multiplier()).collect();
    assert_eq!(mults, vec![1, 1024, 1_048_576, 1_073_741_824]);
    for u in all {
        assert_eq!(SpeedUnit::from_str(u.as_str()), u);
    }
    assert_eq!(SpeedUnit::from_str("bogus"), SpeedUnit::KBps);
    assert_eq!(SpeedUnit::from_str("bps"), SpeedUnit::KBps);
}

fn float_bytes(bytes: u64) -> String {
    if bytes < 1_024 {
        format!("{} B", bytes)
    } else if bytes < 1_048_576 {
        format!("{:.1} KB", bytes as f64 / 1_024.0)
    } else if bytes < 1_073_741_824 {
        format!("{:.2} MB", bytes as f64 / 1_048_576.0)
    } else {
        format!("{:.2} GB", bytes as f64 / 1_073_741_824.0)
    }
}

fn float_speed(bytes_per_sec: f64) -> String {
    if bytes_per_sec < 1.0 {
        "0 B/s".to_string()
    } else if bytes_per_sec < 1_024.0 {
        format!("{:.0} B/s", bytes_per_sec)
    } else if bytes_per_sec < 1_048_576.0 {
        format!("{:.1} KB/s", bytes_per_sec / 1_024.0)
    } else if bytes_per_sec < 1_073_741_824.0 {
        format!("{:.2} MB/s", bytes_per_sec / 1_048_576.0)
    } else {
        format!("{:.2} GB/s", bytes_per_sec / 1_073_741_824.0)
    }
}

#[test]
fn format_bytes_examples() {
    assert_eq!(format_bytes(0), "0 B");
    assert_eq!(format_bytes(1023), "1023 B");
    assert_eq!(format_bytes(1024), "1.0 KB");
    assert_eq!(format_bytes(1536), "1.5 KB");
    assert_eq!(format_bytes(1_048_576), "1.00 MB");
    assert_eq!(format_bytes(1_073_741_824), "1.00 GB");
    assert_eq!(format_bytes(u64::MAX), "17179869184.00 GB");
}

#[test]
fn format_bytes_matches_float_formatting() {
    let mut samples: Vec<u64> = Vec::new();
    for b in 0..5000u64 {
        samples.push(b);
    }
    for k in 0..20000u64 {
        samples.push(1024 + k * 51);
        samples.push(1_048_576 + k * 52_429);
        samples.push(1_073_741_824 + k * 1_234_567_891);
    }
    // Ties in the last decimal place, and values past 2^53.
    samples.push(1024 + 51 * 2);
    samples.push(1024 * 5 / 4);
    for shift in 50..64u32 {
        samples.push((1u64 << shift) + 1);
        samples.push((1u64 << shift) + (1u64 << 11) - 1);
        samples.push((1u64 << shift) - 1);
    }
    samples.push(u64::MAX - 1024);
    for b in samples {
        assert_eq!(format_bytes(b), float_bytes(b), "bytes {}", b);
    }
}

#[test]
fn format_speed_matches_float_formatting() {
    for s in [0u64, 1, 5, 1023, 1024, 1075, 10240, 1_048_575, 1_048_576, 5_000_000, 1_073_741_824, 99_999_999_999, u64::MAX] {
        assert_eq!(format_speed(s), float_speed(s as f64), "speed {}", s);
    }
    for k in 0..20000u64 {
        let s = k * 7919 + 3;
        assert_eq!(format_speed(s), float_speed(s as f64), "speed {}", s);
    }
    assert_eq!(format_speed(0), "0 B/s");
    assert_eq!(format_speed(2048), "2.0 KB/s");
}

#[test]
fn speed_shades() {
    assert_eq!(speed_shade(0), SpeedShade::Idle);
    assert_eq!(speed_shade(1), SpeedShade::Normal);
    assert_eq!(speed_shade(10_239), SpeedShade::Normal);
    assert_eq!(speed_shade(10_240), SpeedShade::Active);
}

fn state(dl_enabled: bool, value: f64, dl_unit: SpeedUnit, dl_blocked: bool) -> ProcessLimitState {
    ProcessLimitState { dl_enabled, dl_value: value.to_bits(), dl_unit, dl_blocked, ..ProcessLimitState::default() }
}

#[test]
fn limit_state_byterates() {
    let d = ProcessLimitState::default();
    assert_eq!(d.dl_unit, SpeedUnit::KBps);
    assert_eq!(d.download_byterate(), None);
    assert!(!d.has_any_setting());
    // 1.5 KB/s
    let s = state(true, 1.5, SpeedUnit::KBps, false);
    assert_eq!(s.download_byterate(), Some(1536));
    assert!(s.dl_active());
    assert!(!s.ul_active());
    // 0.1 KB/s is 102.4 bytes per second, rounded down.
    assert_eq!(state(true, 0.1, SpeedUnit::KBps, false).download_byterate(), Some(102));
    // Blocking wins over a limit.
    assert_eq!(state(true, 1.5, SpeedUnit::KBps, true).download_byterate(), Some(0));
    // A limit of zero, or a disabled one, limits nothing.
    assert_eq!(state(true, 0.0, SpeedUnit::KBps, false).download_byterate(), None);
    assert_eq!(state(false, 1.5, SpeedUnit::KBps, false).download_byterate(), None);
    assert!(state(false, 1.5, SpeedUnit::KBps, false).has_any_setting());
    // Values beyond u64 are held.
    assert_eq!(state(true, f64::MAX, SpeedUnit::GBps, false).download_byterate(), Some(u64::MAX));
    let up = ProcessLimitState { ul_enabled: true, ul_value: 2.0f64.to_bits(), ul_unit: SpeedUnit::MBps, ..ProcessLimitState::default() };
    assert_eq!(up.upload_byterate(), Some(2 * 1_048_576));
}

#[test]
fn limit_state_byterate_matches_float() {
    let values = [0.1, 0.3, 0.7, 1.5, 1.57, 3.3, 9.99, 12.345678, 999_999.0, 1e-300, 5e-324, 1e15, 1e300, f64::MAX, f64::INFINITY];
    for value in values {
        for unit in SpeedUnit::all() {
            let expected = (value * unit.multiplier() as f64) as u64;
            assert_eq!(state(true, value, unit, false).download_byterate(), Some(expected), "{} {:?}", value, unit);
        }
    }
    // Not above zero: no limit, as `value > 0.0` is false.
    for value in [0.0, -0.0, -1.5, f64::NAN, f64::NEG_INFINITY] {
        let s = state(true, value, SpeedUnit::KBps, false);
        assert_eq!(s.download_byterate(), None);
        assert!(!s.dl_active());
    }
    // A value with more than one decimal is taken as it is.
    assert_eq!(state(true, 1.57, SpeedUnit::KBps, false).download_byterate(), Some(1607));
}

#[test]
fn config_round_trip() {
    let s = ProcessLimitState { dl_enabled: true, dl_value: 2.5f64.to_bits(), dl_unit: SpeedUnit::MBps, dl_blocked: false, ul_enabled: false, ul_value: 0, ul_unit: SpeedUnit::GBps, ul_blocked: true };
    let c: ProcessConfig = s.to_process_config();
    assert_eq!(c.dl_unit, "MBps");
    assert_eq!(c.ul_unit, "GBps");
    assert_eq!(ProcessLimitState::from_process_config(&c), s);
    let odd = ProcessConfig { dl_unit: "weird".to_string(), ..c };
    assert_eq!(ProcessLimitState::from_process_config(&odd).dl_unit, SpeedUnit::KBps);
    let _ = AppConfig::default();
}

#[test]
fn limit_flags_merge() {
    let a = LimitFlags::of(&state(true, 1.0, SpeedUnit::KBps, false));
    assert_eq!(a, LimitFlags { dl_active: true, ul_active: false, dl_blocked: false, ul_blocked: false });
    let b = LimitFlags::of(&ProcessLimitState { ul_blocked: true, ..ProcessLimitState::default() });
    assert_eq!(b, LimitFlags { dl_active: false, ul_active: true, dl_blocked: false, ul_blocked: true });
    let m = a.merge(b);
    assert_eq!(m, LimitFlags { dl_active: true, ul_active: true, dl_blocked: false, ul_blocked: true });
    assert_eq!(a.merge(b), b.merge(a));
    assert_eq!(a.merge(LimitFlags::default()), a);
    assert_eq!(a.merge(a), a);
}

fn proc(pid: u32, name: &str, dl: u64, ul: u64) -> ProcessTraffic {
    ProcessTraffic { pid, name: name.to_string(), download_bytes: dl * 10, upload_bytes: ul * 10, download_speed: dl, upload_speed: ul }
}

#[test]
fn groups_by_name_in_first_order() {
    let groups = build_groups(vec![proc(1, "b", 10, 1), proc(2, "a", 5, 2), proc(3, "b", 7, 3), proc(4, "c", 0, 0), proc(5, "a", 1, 1)]);
    let names: Vec<&str> = groups.iter().map(|g| g.name.as_str()).collect();
    assert_eq!(names, vec!["b", "a", "c"]);
    let pids: Vec<Vec<u32>> = groups.iter().map(|g| g.procs.iter().map(|p| p.pid).collect()).collect();
    assert_eq!(pids, vec![vec![1, 3], vec![2, 5], vec![4]]);
    assert_eq!((groups[0].download_speed, groups[0].upload_speed), (17, 4));
    assert_eq!((groups[0].download_bytes, groups[0].upload_bytes), (170, 40));
    assert_eq!(groups[1].download_speed, 6);
    assert!(build_groups(Vec::new()).is_empty());
}

#[test]
fn rules_effective_limits() {
    let saved = vec![("app".to_string(), state(true, 1.0, SpeedUnit::KBps, false)), ("other".to_string(), ProcessLimitState::default())];
    let mut rules = LimitRules::from_saved(&saved);
    assert_eq!(rules.group_state("app"), Some(state(true, 1.0, SpeedUnit::KBps, false)));
    let stats = vec![proc(0, "System", 0, 0), proc(10, "app", 0, 0), proc(11, "other", 0, 0), proc(10, "renamed", 0, 0)];
    assert!(rules.note_processes(&stats));
    assert_eq!(rules.known_name(10), Some("app".to_string()));
    assert_eq!(rules.known_name(0), None);
    // Seen again: nothing new.
    assert!(!rules.note_processes(&stats));
    let limits = rules.effective_limits();
    assert_eq!(limits.len(), 1);
    assert_eq!(limits.get(&10), Some(&LimitConfig { download_byterate: Some(1024), upload_byterate: None }));
    // A limit on the single process overrides that of its application.
    rules.set_pid_state(10, ProcessLimitState { dl_blocked: true, ..ProcessLimitState::default() });
    rules.set_pid_state(0, ProcessLimitState { ul_enabled: true, ul_value: 2.0f64.to_bits(), ul_unit: SpeedUnit::Bps, ..ProcessLimitState::default() });
    let limits = rules.effective_limits();
    assert_eq!(limits.get(&10), Some(&LimitConfig { download_byterate: Some(0), upload_byterate: None }));
    assert_eq!(limits.get(&0), Some(&LimitConfig { download_byterate: None, upload_byterate: Some(2) }));
    assert_eq!(rules.flags_for_pid(10, "app").dl_blocked, true);
    assert_eq!(rules.effective_state(11, "other"), Some(ProcessLimitState::default()));
    // Setting the application limit clears the instance override.
    rules.set_group_state("app", state(true, 3.0, SpeedUnit::KBps, false), &vec![10]);
    assert_eq!(rules.pid_state(10), None);
    assert_eq!(rules.effective_limits().get(&10), Some(&LimitConfig { download_byterate: Some(3072), upload_byterate: None }));
}

#[test]
fn rules_group_flags_and_saving() {
    let mut rules = LimitRules::new();
    rules.set_group_state("app", state(true, 1.0, SpeedUnit::KBps, false), &vec![]);
    rules.set_group_state("idle", ProcessLimitState::default(), &vec![]);
    rules.set_pid_state(2, ProcessLimitState { ul_blocked: true, ..ProcessLimitState::default() });
    let groups = build_groups(vec![proc(1, "app", 0, 0), proc(2, "app", 0, 0)]);
    let flags = rules.flags_for_group(&groups[0]);
    assert_eq!(flags, LimitFlags { dl_active: true, ul_active: true, dl_blocked: false, ul_blocked: true });
    let saved = rules.configs_to_save();
    assert_eq!(saved.len(), 1);
    assert_eq!(saved[0].0, "app");
    assert_eq!(saved[0].1.dl_value, 1.0f64.to_bits());
    assert_eq!(saved[0].1.dl_unit, "KBps");
}

#[test]
fn rules_count_active_limits() {
    let mut rules = LimitRules::new();
    assert_eq!(rules.active_rules(), 0);
    rules.set_group_state("app", state(true, 1.0, SpeedUnit::KBps, false), &vec![]);
    rules.set_group_state("idle", ProcessLimitState::default(), &vec![]);
    rules.set_pid_state(2, ProcessLimitState { ul_blocked: true, ..ProcessLimitState::default() });
    rules.set_pid_state(3, ProcessLimitState::default());
    assert_eq!(rules.active_rules(), 2);
    rules.set_group_state("idle", state(false, 0.5, SpeedUnit::Bps, false), &vec![]);
    assert_eq!(rules.active_rules(), 3);
}

#[test]
fn publisher_cache_retries_then_settles() {
    let mut cache = PublisherCache::new();
    let mut calls = 0;
    for _ in 0..5 {
        let r = cache.get("app.exe", 1, |_| {
            calls += 1;
            None
        });
        assert_eq!(r, None);
    }
    assert_eq!(calls, 3);
    let r = cache.get("b.exe", 2, |pid| Some(format!("Vendor {}", pid)));
    assert_eq!(r, Some("Vendor 2".to_string()));
    let r = cache.get("b.exe", 3, |_| panic!("looked up twice"));
    assert_eq!(r, Some("Vendor 2".to_string()));
    let mut tries = 0;
    let r = cache.get("c.exe", 4, |_| {
        tries += 1;
        None
    });
    assert_eq!(r, None);
    let r = cache.get("c.exe", 4, |_| Some("Late".to_string()));
    assert_eq!(r, Some("Late".to_string()));
    assert_eq!(tries, 1);
}

#[test]
fn settings_paths() {
    let sep = std::path::MAIN_SEPARATOR;
    let dir = config_dir(Some("base"));
    assert_eq!(dir, format!("base{}DecLimiter", sep));
    assert_eq!(config_dir(None), format!(".{}DecLimiter", sep));
    assert_eq!(config_dir(Some("base/")), "base/DecLimiter");
    assert_eq!(config_dir(Some("")), "DecLimiter");
    assert_eq!(config_path(&dir), format!("base{}DecLimiter{}config.json", sep, sep));
    assert_eq!(processes_path(&dir), format!("base{}DecLimiter{}processes.json", sep, sep));
    let joined = std::path::Path::new(&dir).join("config.json");
    assert_eq!(config_path(&dir), joined.to_str().unwrap());
}

fn args(pid: Option<u32>, list: bool, console: bool) -> DecLimiterArgs {
    DecLimiterArgs { pid, download: None, upload: None, garbage_collect: 60, list, console }
}

#[test]
fn startup_modes() {
    assert_eq!(startup_mode(&args(None, true, false)), StartupMode::List);
    assert_eq!(startup_mode(&args(Some(5), true, false)), StartupMode::List);
    assert_eq!(startup_mode(&args(Some(5), false, false)), StartupMode::Direct);
    assert_eq!(startup_mode(&args(None, false, false)), StartupMode::Gui);
    assert!(hides_console(&args(None, false, false)));
    assert!(!hides_console(&args(None, false, true)));
    assert!(!hides_console(&args(Some(1), false, false)));
    assert!(!hides_console(&args(None, true, false)));
}

#[test]
fn direct_plans() {
    let p = direct_plan(&args(Some(5), false, false));
    assert_eq!((p.pid, p.gc_period_nanos, p.flow_max_age_nanos, p.limit), (5, 60_000_000_000, 60_000_000_000, None));
    let every_ten = DecLimiterArgs { garbage_collect: 10, ..args(Some(5), false, false) };
    let p = direct_plan(&every_ten);
    assert_eq!((p.gc_period_nanos, p.flow_max_age_nanos), (10_000_000_000, 10_000_000_000));
    let with = DecLimiterArgs { download: Some(1000), ..args(Some(6), false, false) };
    let p = direct_plan(&with);
    assert_eq!(p.limit, Some((Some(1000), None)));
}

#[test]
fn init_search_outcomes() {
    let found: Option<(u32, String)> = Some((4, "a".to_string()));
    assert_eq!(init_search::<&str>(found.clone(), Ok(500)), Ok(Some(((4, "a".to_string()), 500))));
    assert_eq!(init_search::<&str>(None, Ok(500)), Ok(None));
    assert_eq!(init_search(found, Err("aborted")), Err("aborted"));
}

#[test]
fn speed_input_keys() {
    let mut s = SpeedInput::new();
    assert_eq!(s.handle_key(Key::Enter), InputStep::Continue);
    for c in "2.5m".chars() {
        assert_eq!(s.handle_key(Key::Char(c)), InputStep::Continue);
    }
    // The dot is not kept.
    assert_eq!(s.text(), "25m");
    assert_eq!(s.handle_key(Key::Enter), InputStep::Done(25_000_000));
    assert_eq!(s.handle_key(Key::Backspace), InputStep::Continue);
    assert_eq!(s.text(), "25");
    assert_eq!(s.handle_key(Key::Up), InputStep::Continue);
    assert_eq!(s.handle_key(Key::Enter), InputStep::Done(25));
    assert_eq!(s.handle_key(Key::Char('x')), InputStep::Continue);
    assert_eq!(s.handle_key(Key::Enter), InputStep::Continue);
    assert_eq!(s.handle_key(Key::Esc), InputStep::Abort);
}

#[test]
fn process_search_keys() {
    let mut s = ProcessSearch::new();
    assert_eq!(s.selected(), Some(0));
    assert_eq!(s.handle_key(Key::Down, 3), SearchStep::Continue);
    assert_eq!(s.handle_key(Key::Down, 3), SearchStep::Continue);
    assert_eq!(s.handle_key(Key::Down, 3), SearchStep::Continue);
    assert_eq!(s.selected(), Some(3));
    // Drawing the list brings the choice back to its last line.
    s.clamp(3);
    assert_eq!(s.selected(), Some(2));
    assert_eq!(s.handle_key(Key::Enter, 3), SearchStep::Select(2));
    assert_eq!(s.handle_key(Key::Up, 3), SearchStep::Continue);
    assert_eq!(s.selected(), Some(1));
    assert_eq!(s.handle_key(Key::Char('f'), 3), SearchStep::Requery);
    assert_eq!(s.query(), "f");
    assert_eq!(s.selected(), Some(0));
    s.clamp(0);
    assert_eq!(s.selected(), None);
    assert_eq!(s.handle_key(Key::Enter, 0), SearchStep::Continue);
    assert_eq!(s.handle_key(Key::Up, 0), SearchStep::Continue);
    assert_eq!(s.selected(), Some(usize::MAX));
    assert_eq!(s.handle_key(Key::Backspace, 0), SearchStep::Requery);
    assert_eq!(s.query(), "");
    assert_eq!(s.handle_key(Key::Esc, 0), SearchStep::Cancel);
}

#[test]
fn find_process_names_contain_query() {
    for (_, name) in find_process("a") {
        assert!(name.is_empty() || name.contains('a'));
    }
    assert!(find_process("no process has this name at all 8f3a").is_empty());
}

#[test]
fn process_pairs_keep_order_and_blank_bad_names() {
    let raw = vec![(7, Some("alpha.exe".to_string())), (3, None), (9, Some("beta".to_string()))];
    let pairs = process_pairs(&raw);
    assert_eq!(pairs, vec![(7, "alpha.exe".to_string()), (3, String::new()), (9, "beta".to_string())]);
    assert!(process_pairs(&Vec::new()).is_empty());
}

#[test]
fn lookups_stop_after_three_misses_or_a_find() {
    assert!(lookups_go_on(false, 0));
    assert!(lookups_go_on(false, 2));
    assert!(!lookups_go_on(false, 3));
    assert!(!lookups_go_on(true, 0));
    assert_eq!(one_more_attempt(0), 1);
    assert_eq!(one_more_attempt(2), 3);
    assert_eq!(one_more_attempt(255), 255);
}

#[test]
fn publisher_reads_at_most_three_times() {
    let mut cache = PublisherCache::new();
    let mut reads = 0;
    for _ in 0..10 {
        assert_eq!(cache.get("x.exe", 1, |_| {
            reads += 1;
            None
        }), None);
    }
    assert_eq!(reads, 3);
    // A later lookup that would find a publisher is not made.
    assert_eq!(cache.get("x.exe", 1, |_| Some("Late".to_string())), None);
}

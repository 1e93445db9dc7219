use rpi_lcd_project::delta::{
    codes_from_reply,
    fallback_passwords, is_whitespace, normalize_location, parse_passwords, translit_location, DeltaPassword,
};
use rpi_lcd_project::gpio::{export_text, level_text, SysfsGpioPin};
use rpi_lcd_project::sysinfo::{
    fallback_entries, idle_field, meminfo_kb, proc_label, read_system_status, select_top_processes, truncate_label,
    ProcEntry,
};
use rpi_lcd_project::text::{concat_str, str_chars, str_eq, string_from_chars, u32_to_decimal};

fn pairs(v: &[DeltaPassword]) -> Vec<(String, String)> {
    v.iter().map(|p| (p.location.clone(), p.password.clone())).collect()
}

fn own(v: &[(&str, &str)]) -> Vec<(String, String)> {
    v.iter().map(|(a, b)| (a.to_string(), b.to_string())).collect()
}

#[test]
fn fallback_codes() {
    assert_eq!(
        pairs(&fallback_passwords()),
        own(&[("DAM", "5575"), ("GORGE", "9879"), ("BAKSH", "7180"), ("AEROSPC", "3159"), ("PRISON", "8777")])
    );
}

#[test]
fn known_locations_transliterate() {
    assert_eq!(translit_location("零号大坝"), "DAM");
    assert_eq!(translit_location("长弓溪谷"), "GORGE");
    assert_eq!(translit_location("巴克什"), "BAKSH");
    assert_eq!(translit_location("航天基地"), "AEROSPC");
    assert_eq!(translit_location("潮汐监狱"), "PRISON");
}

#[test]
fn other_locations_keep_ascii_alphanumerics_upper_cased() {
    assert_eq!(translit_location("Zone-7 east"), "ZONE7EAST");
    assert_eq!(translit_location("新地图"), "");
    assert_eq!(translit_location(""), "");
}

#[test]
fn location_in_brackets_is_used() {
    assert_eq!(normalize_location("今日【零号大坝】密码"), "DAM");
    assert_eq!(normalize_location("【b2】"), "B2");
    assert_eq!(normalize_location("open【dam"), "OPENDAM");
    assert_eq!(normalize_location("航天基地"), "AEROSPC");
}

#[test]
fn parse_pairs_locations_with_codes() {
    let body = "标题\n地点:【零号大坝】\n密码: 5-5-7-5 \n  地点: 长弓溪谷\n密码:9879\n";
    assert_eq!(pairs(&parse_passwords(body)), own(&[("DAM", "5575"), ("GORGE", "9879")]));
}

#[test]
fn parse_skips_codes_without_digits_and_caps_at_five() {
    let mut body = String::new();
    for i in 0..7 {
        body.push_str(&format!("地点:site{}\r\n密码:none\r\n密码:{}{}\r\n", i, i, i));
    }
    let got = pairs(&parse_passwords(&body));
    assert_eq!(got.len(), 5);
    assert_eq!(got[0], ("SITE0".to_string(), "00".to_string()));
    assert_eq!(got[4], ("SITE4".to_string(), "44".to_string()));
}

#[test]
fn parse_unpaired_lines() {
    assert!(parse_passwords("").is_empty());
    assert!(parse_passwords("地点:DAM\n").is_empty());
    assert_eq!(pairs(&parse_passwords("密码:1\n密码:2\n地点:x")), own(&[("X", "1")]));
}

#[test]
fn whitespace_classes() {
    assert!(is_whitespace(' '));
    assert!(is_whitespace('\t'));
    assert!(is_whitespace('\u{3000}'));
    assert!(!is_whitespace('a'));
    assert!(!is_whitespace('【'));
}

#[test]
fn label_truncation() {
    assert_eq!(truncate_label("kworker/u8:2-events", 12), "kworker/u8:2");
    assert_eq!(truncate_label("sh", 12), "sh");
    assert_eq!(truncate_label("abc", 0), "");
}

#[test]
fn process_line_label() {
    assert_eq!(proc_label("  systemd-journald  1.5  0.3"), Some("systemd-jour".to_string()));
    assert_eq!(proc_label("bash 0.0 0.1 extra"), Some("bash".to_string()));
    assert_eq!(proc_label("bash 0.0"), None);
    assert_eq!(proc_label(""), None);
}

fn entry(label: &str, cpu: u8) -> ProcEntry {
    ProcEntry { label: label.to_string(), cpu, mem: 1 }
}

fn labels(v: &[ProcEntry]) -> Vec<String> {
    v.iter().map(|p| p.label.clone()).collect()
}

#[test]
fn top_processes_limit() {
    let c = vec![entry("a", 9), entry("b", 5), entry("c", 2), entry("d", 1)];
    assert_eq!(labels(&select_top_processes(c.clone(), 3)), vec!["a", "b", "c"]);
    assert_eq!(labels(&select_top_processes(c.clone(), 10)), vec!["a", "b", "c", "d"]);
    assert_eq!(labels(&select_top_processes(c, 0)), vec!["a"]);
}

#[test]
fn no_processes_gives_placeholders() {
    let r = select_top_processes(Vec::new(), 3);
    assert_eq!(labels(&r), vec!["idle", "system", "worker"]);
    assert!(r.iter().all(|p| p.cpu == 0 && p.mem == 0));
    assert_eq!(labels(&fallback_entries()), vec!["idle", "system", "worker"]);
}

#[test]
fn status_defaults_to_zero_usage() {
    let s = read_system_status(None, fallback_entries());
    assert_eq!((s.cpu_percent, s.mem_percent), (0, 0));
    assert_eq!(s.top_threads.len(), 3);
    let s = read_system_status(Some((37, 62)), vec![entry("x", 37)]);
    assert_eq!((s.cpu_percent, s.mem_percent), (37, 62));
    assert_eq!(labels(&s.top_threads), vec!["x"]);
}

#[test]
fn decimal_text() {
    assert_eq!(u32_to_decimal(0), "0");
    assert_eq!(u32_to_decimal(7), "7");
    assert_eq!(u32_to_decimal(100), "100");
    assert_eq!(u32_to_decimal(4294967295), "4294967295");
}

#[test]
fn string_helpers() {
    assert_eq!(str_chars("a【b"), vec!['a', '【', 'b']);
    assert_eq!(string_from_chars(&vec!['x', '地']), "x地");
    assert_eq!(concat_str("DAY ", "5%"), "DAY 5%");
    assert!(str_eq("quad", "quad"));
    assert!(!str_eq("quad", "qua"));
}

#[test]
fn gpio_paths() {
    let pin = SysfsGpioPin::with_pin(24);
    assert_eq!(pin.number(), 24);
    assert_eq!(pin.gpio_dir(), "/sys/class/gpio/gpio24");
    assert_eq!(pin.direction_path(), "/sys/class/gpio/gpio24/direction");
    assert_eq!(pin.value_path(), "/sys/class/gpio/gpio24/value");
    assert_eq!(export_text(7), "7");
    assert_eq!(level_text(true), "1");
    assert_eq!(level_text(false), "0");
}

#[test]
fn reply_without_pairs_gives_none() {
    assert!(codes_from_reply("").is_none());
    assert!(codes_from_reply("地点:DAM\n密码:none\n").is_none());
    let got = codes_from_reply("地点:【巴克什】\n密码:7180\n").unwrap();
    assert_eq!(pairs(&got), own(&[("BAKSH", "7180")]));
}

#[test]
fn meminfo_sizes() {
    let text = "MemTotal:        3884548 kB\nMemFree:  100 kB\nMemAvailable:    2513328 kB\n";
    assert_eq!(meminfo_kb(text), Some((3884548, 2513328)));
    assert_eq!(meminfo_kb("MemTotal: +12 kB\r\nMemAvailable: 7\r\n"), Some((12, 7)));
    assert_eq!(meminfo_kb("MemTotal: 12 kB\n"), None);
    assert_eq!(meminfo_kb("MemTotal: x12 kB\nMemAvailable: 7\n"), None);
    assert_eq!(meminfo_kb("MemTotal:\nMemAvailable: 7\n"), None);
    assert_eq!(meminfo_kb("MemTotal: 99999999999999999999\nMemAvailable: 7\n"), None);
    assert_eq!(meminfo_kb("MemTotal: 18446744073709551615\nMemAvailable: 0"), Some((u64::MAX, 0)));
    assert_eq!(meminfo_kb("MemTotal: 5\nMemTotal: 6\nMemAvailable: 1\n"), Some((6, 1)));
    assert_eq!(meminfo_kb(""), None);
}

#[test]
fn idle_share_field() {
    let line = "%Cpu(s):  3.1 us,  1.0 sy,  0.0 ni, 95.4 id,  0.0 wa,  0.0 hi";
    assert_eq!(idle_field(line), Some("95.4".to_string()));
    assert_eq!(idle_field("%Cpu(s): 100.0 id"), Some("100.0".to_string()));
    assert_eq!(idle_field("no idle here"), Some("no".to_string()));
    assert_eq!(idle_field("95.4 wa"), None);
    assert_eq!(idle_field(" id"), None);
    assert_eq!(idle_field("7,,, id"), Some("7".to_string()));
}

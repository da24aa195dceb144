use remote_agent::sysinfo::{
    choose_hostname, choose_locale, codepage_to_charset, console_encoding, cpu_busy, cpu_fields, cpu_times,
    kernel_version, linux_os_name, macos_os_name, macos_used_memory, meminfo_kb, memory_from_kb,
    sysctl_number, trimmed_or, user_info, vm_stat_pages,
};

const MEMINFO: &str = "MemTotal:       16318208 kB\nMemFree:         1234567 kB\nMemAvailable:    8000000 kB\nBuffers:          123456 kB\n";

#[test]
fn meminfo_totals() {
    assert_eq!(meminfo_kb(MEMINFO), (16318208, 8000000));
    assert_eq!(memory_from_kb(16318208, 8000000), Some((16318208 * 1024, 8318208 * 1024)));
}

#[test]
fn meminfo_without_total() {
    assert_eq!(meminfo_kb("MemFree: 5 kB\n"), (0, 0));
    assert_eq!(memory_from_kb(0, 0), None);
    assert_eq!(meminfo_kb("MemTotal: lots kB\nMemAvailable:\n"), (0, 0));
    assert_eq!(meminfo_kb("MemTotal: 10 kB\r\nMemTotal: 20 kB"), (20, 0));
}

const STAT: &str = "cpu  100 5 50 800 10 0 5 0 0 0\ncpu0 50 2 25 400 5 0 3 0 0 0\nintr 12345\n";

#[test]
fn cpu_counters() {
    let f = cpu_fields(STAT).unwrap();
    assert_eq!(f, vec![100, 5, 50, 800, 10, 0, 5, 0, 0, 0]);
    assert_eq!(cpu_times(&f), Some((970, 800)));
    assert_eq!(cpu_fields("intr 1\n"), None);
    assert_eq!(cpu_fields("cpu  1 x 2\n"), Some(vec![1, 2]));
    assert_eq!(cpu_times(&vec![1, 2]), None);
}

#[test]
fn cpu_busy_between_samples() {
    assert_eq!(cpu_busy(970, 800, 1070, 850), Some((50, 100)));
    assert_eq!(cpu_busy(970, 800, 970, 800), None);
    assert_eq!(cpu_busy(970, 800, 960, 790), None);
    assert_eq!(cpu_busy(100, 80, 200, 70), Some((100, 100)));
    assert_eq!(cpu_busy(100, 80, 200, 300), Some((0, 100)));
}

#[test]
fn os_release_pretty_name() {
    let text = "NAME=\"Ubuntu\"\nPRETTY_NAME=\"Ubuntu 24.04.2 LTS\"\nVERSION_ID=\"24.04\"\n";
    assert_eq!(linux_os_name(Some(text)), "Ubuntu 24.04.2 LTS");
    assert_eq!(linux_os_name(Some("NAME=x\n")), "Linux");
    assert_eq!(linux_os_name(None), "Linux");
    assert_eq!(linux_os_name(Some("PRETTY_NAME=Plain\n")), "Plain");
}

#[test]
fn proc_version_kernel() {
    assert_eq!(kernel_version(Some("Linux version 6.8.0-51-generic (buildd@lcy02) #52")), "6.8.0-51-generic");
    assert_eq!(kernel_version(Some("Linux version")), "unknown");
    assert_eq!(kernel_version(None), "unknown");
}

#[test]
fn macos_strings() {
    assert_eq!(macos_os_name(Some("15.3\n")), "macOS 15.3");
    assert_eq!(macos_os_name(None), "macOS");
    assert_eq!(trimmed_or(Some(" 24.3.0\n"), "unknown"), "24.3.0");
    assert_eq!(trimmed_or(None, "unknown"), "unknown");
    assert_eq!(sysctl_number(Some("17179869184\n"), 0), 17179869184);
    assert_eq!(sysctl_number(Some("junk"), 4096), 4096);
    assert_eq!(sysctl_number(None, 4096), 4096);
}

#[test]
fn vm_stat_counts() {
    let text = "Mach Virtual Memory Statistics: (page size of 16384 bytes)\nPages free:                               3456.\nPages active:                           100.\nPages wired down:                        20.\nPages occupied by compressor:             3.\n";
    assert_eq!(vm_stat_pages(text), (100, 20, 3));
    assert_eq!(macos_used_memory(100, 20, 3, 16384), 123 * 16384);
}

#[test]
fn environment_choices() {
    assert_eq!(choose_hostname(Some("box".to_string()), Some("other\n")), "box");
    assert_eq!(choose_hostname(None, Some("  host1\n")), "host1");
    assert_eq!(choose_hostname(None, None), "unknown");
    assert_eq!(choose_locale(None, Some("C.UTF-8".to_string()), Some("de_DE".to_string())), "C.UTF-8");
    assert_eq!(choose_locale(None, None, None), "en_US.UTF-8");
    let u = user_info(Some("alice".to_string()), None);
    assert_eq!(u.user_name, "alice");
    assert_eq!(u.home_path, "unknown");
}

#[test]
fn code_pages() {
    assert_eq!(codepage_to_charset(437), "CP437");
    assert_eq!(codepage_to_charset(932), "Shift_JIS");
    assert_eq!(codepage_to_charset(1252), "windows-1252");
    assert_eq!(codepage_to_charset(65001), "UTF-8");
    assert_eq!(codepage_to_charset(12345), "UTF-8");
    assert_eq!(console_encoding(Some(866)), "CP866");
    assert_eq!(console_encoding(None), "UTF-8");
}

//! Which platform the agent runs on.
use vstd::prelude::*;
use crate::text::{chars_of, contains, range_contains, range_equals, str_lowercase, to_lowercase};

verus! {

/// Whether the text of `/proc/version` (when it could be read) shows Windows Subsystem for
/// Linux: its lower-cased text holds "microsoft" or "wsl".
pub open spec fn wsl_version(proc_version: Option<Seq<char>>) -> bool {
    match proc_version {
        Some(v) => contains(str_lowercase(v), "microsoft"@) || contains(str_lowercase(v), "wsl"@),
        None => false,
    }
}

pub open spec fn opt_view(s: Option<&str>) -> Option<Seq<char>> {
    match s {
        Some(t) => Some(t@),
        None => None,
    }
}

/// Detects Windows Subsystem for Linux from the text of `/proc/version`; where that file
/// cannot be read (any other system), the answer is no.
pub fn is_wsl(proc_version: Option<&str>) -> (r: bool)
    ensures
        r == wsl_version(opt_view(proc_version)),
{
    match proc_version {
        Some(v) => {
            let lower = to_lowercase(v);
            let lc = chars_of(lower.as_str());
            assert(lc@.subrange(0, lc@.len() as int) =~= lc@);
            let ms = chars_of("microsoft");
            let wsl = chars_of("wsl");
            range_contains(&lc, 0, lc.len(), &ms) || range_contains(&lc, 0, lc.len(), &wsl)
        },
        None => false,
    }
}

/// The platform label for logs: "windows", "macos", "linux" or "linux-wsl", or the OS
/// name itself for any other system.
pub open spec fn platform_label_of(os: Seq<char>, proc_version: Option<Seq<char>>) -> Seq<char> {
    if os == "windows"@ {
        "windows"@
    } else if os == "macos"@ {
        "macos"@
    } else if os == "linux"@ {
        if wsl_version(proc_version) { "linux-wsl"@ } else { "linux"@ }
    } else {
        os
    }
}

/// The label of the platform named `os` (as `std::env::consts::OS` names it), with
/// `/proc/version` telling WSL apart on Linux.
pub fn platform_label(os: &str, proc_version: Option<&str>) -> (r: String)
    ensures
        r@ == platform_label_of(os@, opt_view(proc_version)),
{
    let v = chars_of(os);
    assert(v@.subrange(0, v@.len() as int) =~= v@);
    if range_equals(&v, 0, v.len(), &chars_of("windows")) {
        String::from_str("windows")
    } else if range_equals(&v, 0, v.len(), &chars_of("macos")) {
        String::from_str("macos")
    } else if range_equals(&v, 0, v.len(), &chars_of("linux")) {
        if is_wsl(proc_version) {
            String::from_str("linux-wsl")
        } else {
            String::from_str("linux")
        }
    } else {
        String::from_str(os)
    }
}

} // verus!

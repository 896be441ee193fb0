use vstd::prelude::*;

use crate::textscan::{
    between_first, occurs, before_first, after_first, get_all_between_strict, get_all_before_strict,
    get_all_after_strict, trim_ws, trim_spec, parse_u64, parse_u64_spec, sanitize, sanitize_spec,
};

verus! {

/// The sentinel the remote command prints between its output sections.
pub open spec fn section_sep() -> Seq<char> {
    "MUBELOTIX-SEPARATOR"@
}

/// The CPU model as reported in the processor listing, if present.
pub open spec fn cpu_spec(cpuinfo: Seq<char>) -> Option<Seq<char>> {
    between_first(cpuinfo, "model name\t: "@, "\n"@)
}

/// A labelled kilobyte quantity of the memory listing, converted to bytes;
/// nothing when the label is missing, the field is not a number, or the
/// conversion would not fit.
pub open spec fn mem_field_spec(meminfo: Seq<char>, label: Seq<char>) -> Option<u64> {
    match between_first(meminfo, label, " kB"@) {
        Some(s) => match parse_u64_spec(trim_spec(s)) {
            Some(v) => if v * 1000 <= u64::MAX {
                Some((v * 1000) as u64)
            } else {
                None
            },
            None => None,
        },
        None => None,
    }
}

pub open spec fn ram_spec(meminfo: Seq<char>) -> Option<u64> {
    mem_field_spec(meminfo, "MemTotal:"@)
}

pub open spec fn swap_spec(meminfo: Seq<char>) -> Option<u64> {
    mem_field_spec(meminfo, "SwapTotal:"@)
}

/// The primary MAC address as shown in the interface listing, if present.
pub open spec fn mac_spec(ipaddr: Seq<char>) -> Option<Seq<char>> {
    match between_first(ipaddr, "    link/ether "@, " brd"@) {
        Some(s) => Some(trim_spec(s)),
        None => None,
    }
}

/// The four sanitised sections of a probe's info output: hostname, processor
/// listing, memory listing and interface listing, split at the sentinel.
pub open spec fn parse_info_spec(data: Seq<char>) -> Option<
    (Seq<char>, Seq<char>, Seq<char>, Seq<char>),
> {
    if occurs(data, section_sep()) {
        let hostname = before_first(data, section_sep());
        let d1 = after_first(data, section_sep());
        if occurs(d1, section_sep()) {
            let cpuinfo = before_first(d1, section_sep());
            let d2 = after_first(d1, section_sep());
            if occurs(d2, section_sep()) {
                let meminfo = before_first(d2, section_sep());
                let ipaddr = after_first(d2, section_sep());
                Some(
                    (
                        sanitize_spec(hostname),
                        sanitize_spec(cpuinfo),
                        sanitize_spec(meminfo),
                        sanitize_spec(ipaddr),
                    ),
                )
            } else {
                None
            }
        } else {
            None
        }
    } else {
        None
    }
}

/// Last known system facts for a host, as sanitised text sections of the
/// remote command's output.
#[derive(Debug)]
pub struct ExtendedInfo {
    pub hostname: String,
    pub cpuinfo: String,
    pub meminfo: String,
    pub ipaddr: String,
}

impl ExtendedInfo {
    pub fn cpu<'a>(&'a self) -> (r: Option<&'a str>)
        ensures
            r is Some <==> cpu_spec(self.cpuinfo@) is Some,
            r matches Some(s) ==> Some(s@) == cpu_spec(self.cpuinfo@),
    {
        get_all_between_strict(self.cpuinfo.as_str(), "model name\t: ", "\n")
    }

    pub fn ram(&self) -> (r: Option<u64>)
        ensures
            r == ram_spec(self.meminfo@),
    {
        mem_field(&self.meminfo, "MemTotal:")
    }

    pub fn swap(&self) -> (r: Option<u64>)
        ensures
            r == swap_spec(self.meminfo@),
    {
        mem_field(&self.meminfo, "SwapTotal:")
    }

    pub fn mac<'a>(&'a self) -> (r: Option<&'a str>)
        ensures
            r is Some <==> mac_spec(self.ipaddr@) is Some,
            r matches Some(s) ==> Some(s@) == mac_spec(self.ipaddr@),
    {
        match get_all_between_strict(self.ipaddr.as_str(), "    link/ether ", " brd") {
            Some(s) => Some(trim_ws(s)),
            None => None,
        }
    }
}

/// Extract one labelled kilobyte field of the memory listing as bytes.
fn mem_field(meminfo: &String, label: &str) -> (r: Option<u64>)
    ensures
        r == mem_field_spec(meminfo@, label@),
{
    match get_all_between_strict(meminfo.as_str(), label, " kB") {
        None => None,
        Some(s) => {
            let t = trim_ws(s);
            match parse_u64(t) {
                None => None,
                Some(v) => {
                    proof {
                        vstd::arithmetic::div_mod::lemma_fundamental_div_mod(
                            u64::MAX as int,
                            1000,
                        );
                    }
                    if v <= u64::MAX / 1000 {
                        Some(v * 1000)
                    } else {
                        None
                    }
                },
            }
        },
    }
}

/// Split the remote command's output at the sentinel into the four info
/// sections, each trimmed and stripped of commas; nothing when a sentinel is
/// missing.
pub fn parse_extended_info(data: &str) -> (r: Option<ExtendedInfo>)
    ensures
        r is Some <==> parse_info_spec(data@) is Some,
        r matches Some(info) ==> Some(
            (info.hostname@, info.cpuinfo@, info.meminfo@, info.ipaddr@),
        ) == parse_info_spec(data@),
{
    let sep = "MUBELOTIX-SEPARATOR";
    let hostname = match get_all_before_strict(data, sep) {
        Some(h) => h,
        None => {
            return None;
        },
    };
    let d1 = match get_all_after_strict(data, sep) {
        Some(d) => d,
        None => {
            return None;
        },
    };
    let cpuinfo = match get_all_before_strict(d1, sep) {
        Some(c) => c,
        None => {
            return None;
        },
    };
    let d2 = match get_all_after_strict(d1, sep) {
        Some(d) => d,
        None => {
            return None;
        },
    };
    let meminfo = match get_all_before_strict(d2, sep) {
        Some(m) => m,
        None => {
            return None;
        },
    };
    let ipaddr = match get_all_after_strict(d2, sep) {
        Some(a) => a,
        None => {
            return None;
        },
    };
    Some(
        ExtendedInfo {
            hostname: sanitize(hostname),
            cpuinfo: sanitize(cpuinfo),
            meminfo: sanitize(meminfo),
            ipaddr: sanitize(ipaddr),
        },
    )
}

} // verus!

//! Process settings, each taken from an optional raw value or a default.
use vstd::prelude::*;
use crate::num::{IntErrorKind, parse_unsigned, parse_unsigned_spec};

verus! {

pub struct Config {
    pub uds_path: String,
    pub index_path: String,
    pub mcc_risk_path: String,
    pub ivf_nprobe: u32,
    pub iouring_qd: u32,
    pub accept_sqes: u32,
    pub backlog: i32,
    pub max_conns: usize,
}

/// The numeric settings.
#[derive(Debug, Clone, Copy, PartialEq, Eq, Structural)]
pub enum Setting {
    IvfNprobe,
    IouringQd,
    AcceptSqes,
    Backlog,
    MaxConns,
}

/// A numeric setting whose raw value is not a `u32`.
#[derive(Debug, Clone, Copy, PartialEq, Eq, Structural)]
pub struct SettingError {
    pub setting: Setting,
    pub kind: IntErrorKind,
}

/// A numeric setting: its default when absent, else its raw value read
/// as a `u32`.
pub open spec fn setting_spec(raw: Option<Seq<u8>>, default: u32) -> Result<u32, IntErrorKind> {
    match raw {
        None => Ok(default),
        Some(v) => match parse_unsigned_spec(v, u32::MAX as nat) {
            Ok(n) => Ok(n as u32),
            Err(e) => Err(e),
        },
    }
}

pub open spec fn raw_view(raw: Option<&[u8]>) -> Option<Seq<u8>> {
    match raw {
        Some(v) => Some(v@),
        None => None,
    }
}

pub open spec fn path_or(raw: Option<String>, default: Seq<char>) -> Seq<char> {
    match raw {
        Some(s) => s@,
        None => default,
    }
}

/// The `u32` read from `raw`, or `default` when there is none.
pub fn parse_u32(raw: Option<&[u8]>, default: u32) -> (r: Result<u32, IntErrorKind>)
    ensures
        r == setting_spec(raw_view(raw), default),
{
    match raw {
        None => Ok(default),
        Some(v) => match parse_unsigned(v, u32::MAX as u64) {
            Ok(n) => Ok(n as u32),
            Err(e) => Err(e),
        },
    }
}

fn path_setting(raw: Option<String>, default: &str) -> (r: String)
    ensures
        r@ == path_or(raw, default@),
{
    match raw {
        Some(s) => s,
        None => default.to_string(),
    }
}

impl Config {
    /// Build the settings from their raw values: paths default to the
    /// standard locations, numbers to their standard values, and the first
    /// number (in field order) that does not read as a `u32` is an error.
    /// `backlog` is the `u32` reinterpreted as `i32`.
    pub fn from_values(
        uds_path: Option<String>,
        index_path: Option<String>,
        mcc_risk_path: Option<String>,
        ivf_nprobe: Option<&[u8]>,
        iouring_qd: Option<&[u8]>,
        accept_sqes: Option<&[u8]>,
        backlog: Option<&[u8]>,
        max_conns: Option<&[u8]>,
    ) -> (r: Result<Config, SettingError>)
        ensures
            match (
                setting_spec(raw_view(ivf_nprobe), 1),
                setting_spec(raw_view(iouring_qd), 4096),
                setting_spec(raw_view(accept_sqes), 256),
                setting_spec(raw_view(backlog), 4096),
                setting_spec(raw_view(max_conns), 1024),
            ) {
                (Err(e), _, _, _, _) => r == Err::<Config, SettingError>(
                    SettingError { setting: Setting::IvfNprobe, kind: e },
                ),
                (Ok(_), Err(e), _, _, _) => r == Err::<Config, SettingError>(
                    SettingError { setting: Setting::IouringQd, kind: e },
                ),
                (Ok(_), Ok(_), Err(e), _, _) => r == Err::<Config, SettingError>(
                    SettingError { setting: Setting::AcceptSqes, kind: e },
                ),
                (Ok(_), Ok(_), Ok(_), Err(e), _) => r == Err::<Config, SettingError>(
                    SettingError { setting: Setting::Backlog, kind: e },
                ),
                (Ok(_), Ok(_), Ok(_), Ok(_), Err(e)) => r == Err::<Config, SettingError>(
                    SettingError { setting: Setting::MaxConns, kind: e },
                ),
                (Ok(np), Ok(qd), Ok(acc), Ok(bl), Ok(mc)) => r matches Ok(c) && c.uds_path@ == path_or(
                    uds_path,
                    "/sockets/api.sock"@,
                ) && c.index_path@ == path_or(index_path, "/app/index.bin"@) && c.mcc_risk_path@
                    == path_or(mcc_risk_path, "/app/mcc_risk.json"@) && c.ivf_nprobe == np
                    && c.iouring_qd == qd && c.accept_sqes == acc && c.backlog == (if bl <= i32::MAX {
                    bl as int
                } else {
                    bl - 4294967296
                }) && c.max_conns == mc,
            },
    {
        let uds_path = path_setting(uds_path, "/sockets/api.sock");
        let index_path = path_setting(index_path, "/app/index.bin");
        let mcc_risk_path = path_setting(mcc_risk_path, "/app/mcc_risk.json");
        let ivf_nprobe = match parse_u32(ivf_nprobe, 1) {
            Ok(v) => v,
            Err(kind) => return Err(SettingError { setting: Setting::IvfNprobe, kind }),
        };
        let iouring_qd = match parse_u32(iouring_qd, 4096) {
            Ok(v) => v,
            Err(kind) => return Err(SettingError { setting: Setting::IouringQd, kind }),
        };
        let accept_sqes = match parse_u32(accept_sqes, 256) {
            Ok(v) => v,
            Err(kind) => return Err(SettingError { setting: Setting::AcceptSqes, kind }),
        };
        let backlog_raw = match parse_u32(backlog, 4096) {
            Ok(v) => v,
            Err(kind) => return Err(SettingError { setting: Setting::Backlog, kind }),
        };
        let max_conns = match parse_u32(max_conns, 1024) {
            Ok(v) => v,
            Err(kind) => return Err(SettingError { setting: Setting::MaxConns, kind }),
        };
        let backlog: i32 = if backlog_raw <= i32::MAX as u32 {
            backlog_raw as i32
        } else {
            (backlog_raw as i64 - 4294967296) as i32
        };
        Ok(
            Config {
                uds_path,
                index_path,
                mcc_risk_path,
                ivf_nprobe,
                iouring_qd,
                accept_sqes,
                backlog,
                max_conns: max_conns as usize,
            },
        )
    }
}

}

//! The configured level name maps to the matching log level, and any
//! unrecognized name turns logging off.

use drift_ingest::settings::{LogLevel, Settings, Solana, Tracing};

fn tracing_with(level: &str) -> Tracing {
    Tracing {
        debug: false,
        dirname: "logs".to_string(),
        prefix: "scrape".to_string(),
        level: level.to_string(),
    }
}

#[test]
fn known_level_names_map_to_their_levels() {
    assert_eq!(tracing_with("debug").to_level_filter(), LogLevel::Debug);
    assert_eq!(tracing_with("error").to_level_filter(), LogLevel::Error);
    assert_eq!(tracing_with("info").to_level_filter(), LogLevel::Info);
    assert_eq!(tracing_with("trace").to_level_filter(), LogLevel::Trace);
    assert_eq!(tracing_with("warn").to_level_filter(), LogLevel::Warn);
}

#[test]
fn unknown_level_name_turns_logging_off() {
    assert_eq!(tracing_with("chatty").to_level_filter(), LogLevel::Off);
    assert_eq!(tracing_with("").to_level_filter(), LogLevel::Off);
}

#[test]
fn settings_hold_their_fields() {
    let s = Settings {
        tracing: tracing_with("info"),
        solana: Solana { wss: "wss://example".to_string(), rpc: "https://example".to_string() },
    };
    assert_eq!(s.solana.wss, "wss://example");
    assert_eq!(s.solana.rpc, "https://example");
    assert_eq!(s.tracing.to_level_filter(), LogLevel::Info);
}

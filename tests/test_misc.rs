use symbolserver::config::{ApiServer, Config, LogLevelFilter};
use symbolserver::dsym::{extract_variant, LoadCommand, Object, ObjectImage, RawSymbol};
use symbolserver::error::Error;
use symbolserver::sdk::{member_action, ParseOutcome, WalkAction};

const ARM64: (i32, i32) = (0x0100_000c, 0);

fn raw(name: Option<&str>, defined: bool, external: bool, sect: Option<(&str, &str)>, addr: u64) -> RawSymbol {
    RawSymbol {
        name: name.map(|s| s.to_string()),
        defined,
        external,
        section: sect.map(|(a, b)| (a.to_string(), b.to_string())),
        addr,
    }
}

fn object() -> Object {
    let cmds = vec![
        LoadCommand::Segment { segname: "__PAGEZERO".to_string(), vmaddr: 0, vmsize: 0x1000 },
        LoadCommand::Uuid([1u8; 16]),
        LoadCommand::Segment { segname: "__TEXT".to_string(), vmaddr: 0x1000, vmsize: 0x2000 },
        LoadCommand::IdDylib("/usr/lib/libfoo.dylib".to_string()),
        LoadCommand::Other,
    ];
    let variant = extract_variant(ARM64.0, ARM64.1, &cmds);
    let symbols = vec![
        raw(Some("_text_local"), true, false, Some(("__TEXT", "__text")), 0x1010),
        raw(Some("_exported"), true, true, Some(("__TEXT", "__text")), 0x1020),
        raw(Some("_data"), true, false, Some(("__DATA", "__data")), 0x3000),
        raw(Some("_undef"), false, false, None, 0),
        raw(None, true, false, Some(("__TEXT", "__text")), 0x1030),
        raw(Some("_cstr"), true, false, Some(("__TEXT", "__cstring")), 0x1040),
        raw(Some("_second"), true, false, Some(("__TEXT", "__text")), 0x1050),
    ];
    Object { images: vec![ObjectImage { variant, symbols }] }
}

#[test]
fn variant_from_load_commands() {
    let o = object();
    let v = o.variants()[0];
    assert_eq!(v.uuid(), Some([1u8; 16]));
    assert_eq!(v.name(), Some("/usr/lib/libfoo.dylib"));
    assert_eq!(v.vmaddr(), 0x1000);
    assert_eq!(v.vmsize(), 0x2000);
    assert_eq!(v.arch(), "arm64");
}

#[test]
fn variant_without_commands() {
    let v = extract_variant(999, 0, &vec![]);
    assert_eq!(v.uuid(), None);
    assert_eq!(v.name(), None);
    assert_eq!(v.vmaddr(), 0);
    assert_eq!(v.arch(), "unknown");
}

#[test]
fn only_local_text_symbols_are_taken() {
    let o = object();
    let syms = o.symbols("arm64").unwrap();
    assert_eq!(syms, vec![(0x1010, "_text_local".to_string()), (0x1050, "_second".to_string())]);
}

#[test]
fn architecture_errors() {
    let o = object();
    assert!(matches!(o.symbols("armv7"), Err(Error::MissingArchitecture(a)) if a == "armv7"));
    assert!(matches!(o.symbols("no-such-arch"), Err(Error::UnknownArchitecture(a)) if a == "no-such-arch"));
    let empty = Object { images: vec![] };
    assert!(matches!(empty.symbols("arm64"), Err(Error::MissingArchitecture(_))));
}

#[test]
fn walker_rule() {
    assert_eq!(member_action(0, ParseOutcome::Parsed), WalkAction::Skip);
    assert_eq!(member_action(10, ParseOutcome::Parsed), WalkAction::Yield);
    assert_eq!(member_action(10, ParseOutcome::NotMachO), WalkAction::Skip);
    assert_eq!(member_action(10, ParseOutcome::Failed), WalkAction::Stop);
}

#[test]
fn config_defaults() {
    let c = Config::empty();
    assert_eq!(c.get_aws_access_key(), None);
    assert_eq!(c.get_aws_secret_key(), None);
    assert_eq!(c.get_server_healthcheck_ttl(), 60);
    assert_eq!(c.get_server_sync_interval().unwrap(), 60);
    assert_eq!(c.get_log_level_filter().unwrap(), LogLevelFilter::Info);
    assert_eq!(c.get_log_filename().unwrap(), None);
    assert_eq!(c.get_server_socket_addr(None, None, false).unwrap(), ("127.0.0.1".to_string(), 3000));
    assert_eq!(c.get_server_socket_addr(None, None, true).unwrap(), ("0.0.0.0".to_string(), 3000));
}

#[test]
fn config_environment_values() {
    let c = Config::empty();
    assert_eq!(c.get_server_socket_addr(Some("10.0.0.1"), Some("8080"), false).unwrap(), ("10.0.0.1".to_string(), 8080));
    assert!(matches!(c.get_server_port(Some("70000")), Err(Error::BadConfigKey(_, _))));
    assert!(matches!(c.get_server_port(Some("http")), Err(Error::BadConfigKey(_, _))));
    let mut c = Config::empty();
    c.server.port = Some(9000);
    c.server.host = Some("example".to_string());
    assert_eq!(c.get_server_socket_addr(Some("10.0.0.1"), Some("bad"), true).unwrap(), ("example".to_string(), 9000));
}

#[test]
fn config_setters() {
    let mut c = Config::empty();
    c.set_aws_bucket_url("s3://bucket");
    c.set_symbol_dir("/var/symbols");
    c.set_log_level_filter(LogLevelFilter::Debug);
    assert_eq!(c.aws.bucket_url.as_deref(), Some("s3://bucket"));
    assert_eq!(c.symbol_dir.as_deref(), Some("/var/symbols"));
    assert_eq!(c.log.level.as_deref(), Some("DEBUG"));
    assert_eq!(c.get_log_level_filter().unwrap(), LogLevelFilter::Debug);
    c.log.level = Some("bogus".to_string());
    assert!(matches!(c.get_log_level_filter(), Err(Error::BadConfigKey(k, m)) if k == "log.level" && m == "unknown log level"));
    c.log.file = Some("/tmp/log".to_string());
    assert_eq!(c.get_log_filename().unwrap(), Some("/tmp/log"));
    c.server.sync_interval = Some(0);
    assert!(c.get_server_sync_interval().is_err());
    c.aws.access_key = Some("AK".to_string());
    let s = ApiServer::new(&c).unwrap();
    assert_eq!(s.config().get_aws_access_key(), Some("AK"));
}

#[test]
fn log_level_names() {
    assert_eq!(LogLevelFilter::parse("WaRn"), Some(LogLevelFilter::Warn));
    assert_eq!(LogLevelFilter::parse("trace"), Some(LogLevelFilter::Trace));
    assert_eq!(LogLevelFilter::parse("OFF"), Some(LogLevelFilter::Off));
    assert_eq!(LogLevelFilter::parse("verbose"), None);
    assert_eq!(LogLevelFilter::Error.name(), "ERROR");
}

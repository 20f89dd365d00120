use audiosilence::plugin_loader::{
    confirm, first_plugin, instance_number, load_plugin, load_scanned, make_ready, Host,
    ScanOutcome,
};
use plugin_host::descriptor::{PluginCategory, PluginDescriptor, PluginFormat};
use plugin_host::instance::PluginStatus;
use plugin_host::sandbox::SandboxMode;

fn descriptor(name: &str) -> PluginDescriptor {
    PluginDescriptor {
        id: format!("test.{}", name),
        name: name.to_string(),
        vendor: "nobody".to_string(),
        version: "1.0".to_string(),
        description: String::new(),
        category: PluginCategory::Effect,
        format: PluginFormat::Clap,
        path: "/nowhere".into(),
        index: 0,
        audio_inputs: 2,
        audio_outputs: 2,
        has_midi_in: false,
        has_gui: false,
        file_hash: 0,
    }
}

fn error_of<T>(result: Result<T, String>) -> String {
    match result {
        Ok(_) => panic!("an error was expected"),
        Err(error) => error,
    }
}

#[test]
fn an_invalid_file_is_reported() {
    let outcome = ScanOutcome::Invalid("bad magic".to_string());
    assert_eq!(error_of(first_plugin(outcome)), "invalid plugin file: bad magic");
    let outcome = ScanOutcome::Invalid(String::new());
    assert_eq!(error_of(load_scanned(&mut Host::new(), outcome, 48000, 1)), "invalid plugin file: ");
}

#[test]
fn a_failed_scan_is_reported() {
    let outcome = ScanOutcome::Failed("no such file".to_string());
    assert_eq!(error_of(load_scanned(&mut Host::new(), outcome, 48000, 1)), "error scanning plugin: no such file");
}

#[test]
fn an_empty_library_is_reported() {
    let outcome = ScanOutcome::Found(Vec::new());
    assert_eq!(error_of(load_scanned(&mut Host::new(), outcome, 48000, 1)), "no plugins found in the library");
}

#[test]
fn the_first_plugin_is_taken() {
    let found = vec![descriptor("one"), descriptor("two"), descriptor("three")];
    let first = first_plugin(ScanOutcome::Found(found)).unwrap();
    assert_eq!(first.name, "one");
}

#[test]
fn a_loaded_plugin_is_active() {
    let found = ScanOutcome::Found(vec![descriptor("reverb"), descriptor("delay")]);
    let mut host = Host::new();
    let mut plugin = load_scanned(&mut host, found, 48000, (7u128 << 64) + 42).unwrap();
    assert_eq!(plugin.descriptor().name, "reverb");
    assert_eq!(plugin.number(), 42);
    let instance = plugin.lend();
    assert_eq!(instance.descriptor.name, "reverb");
    assert_eq!(instance.id.0, 42);
    assert_eq!(instance.status, PluginStatus::Active);
    assert_eq!(instance.sandbox.config.mode, SandboxMode::InProcess);
}

#[test]
fn a_host_loads_one_plugin_after_another() {
    let mut host = Host::new();
    let none = ScanOutcome::Found(Vec::new());
    assert!(load_scanned(&mut host, none, 48000, 1).is_err());
    let a = ScanOutcome::Found(vec![descriptor("a")]);
    assert_eq!(load_scanned(&mut host, a, 48000, 2).unwrap().number(), 2);
    let b = ScanOutcome::Found(vec![descriptor("b")]);
    assert_eq!(load_scanned(&mut host, b, 44100, 3).unwrap().descriptor().name, "b");
}

#[test]
fn a_plugin_that_could_not_be_loaded_is_refused() {
    let loaded = Err("no entry point".to_string());
    let refused = make_ready(&mut Host::new(), descriptor("a"), loaded, 48000, 1);
    assert_eq!(error_of(refused), "no entry point");
}

#[test]
fn a_missing_file_is_reported() {
    assert_eq!(
        error_of(load_plugin(&mut Host::new(), "/no/such/plugin.clap", 48000, 1)),
        "error scanning plugin: Path does not exist: /no/such/plugin.clap"
    );
}

#[test]
fn a_plugin_that_stays_inactive_is_refused() {
    let plugin = load_scanned(&mut Host::new(), ScanOutcome::Found(vec![descriptor("a")]), 44100, 3).unwrap();
    assert_eq!(error_of(confirm(plugin, false)), "failed to activate plugin");
    let plugin = load_scanned(&mut Host::new(), ScanOutcome::Found(vec![descriptor("b")]), 44100, 4).unwrap();
    assert_eq!(confirm(plugin, true).unwrap().descriptor().name, "b");
}

#[test]
fn instance_numbers_keep_the_low_bits() {
    assert_eq!(instance_number(5), 5);
    assert_eq!(instance_number(u64::MAX as u128), u64::MAX);
    assert_eq!(instance_number(u64::MAX as u128 + 1), 0);
}

//! The calls into `plugin_host`.
//!
//! A host keeps a record, for proofs only, of what it was asked and what it
//! answered, and a plugin one of how it was made. Nothing but the functions of this
//! module, which make the calls, enters anything in these records.
use plugin_host::bridge::clap::ClapBridge;
use plugin_host::descriptor::{PluginDescriptor, PluginFormat};
use plugin_host::instance::{PluginInstance, PluginInstanceId};
use plugin_host::sandbox::SandboxConfig;
use plugin_host::scanner::{PluginScanner, ScanResult};
use std::path::Path;
use vstd::prelude::*;

verus! {

/// An instance of a plugin, as `plugin_host` hands it out. It is carried, never
/// looked into.
#[verifier::external_type_specification]
#[verifier::external_body]
pub struct ExPluginInstance(plugin_host::instance::PluginInstance);

/// The description of a plugin, as `plugin_host` gives it. It is carried, never
/// looked into.
#[verifier::external_type_specification]
#[verifier::external_body]
pub struct ExPluginDescriptor(plugin_host::descriptor::PluginDescriptor);

/// A plugin of the CLAP format, as `plugin_host` loads it. It is carried, never
/// looked into.
#[verifier::external_type_specification]
#[verifier::external_body]
pub struct ExClapBridge(plugin_host::bridge::clap::ClapBridge);

/// The formats of plugin files.
pub enum Format {
    Clap,
    Vst3,
}

/// Where a plugin runs.
pub enum Isolation {
    InProcess,
    OutOfProcess,
}

/// What a plugin is made active for.
pub struct Setup {
    /// The number of samples per second.
    pub sample_rate: u32,
    /// The smallest number of frames that it is asked to process at once.
    pub min_block: usize,
    /// The greatest number of frames that it is asked to process at once.
    pub max_block: usize,
}

/// The result of scanning a plugin file.
pub enum ScanOutcome {
    /// The plugins in the file.
    Found(Vec<PluginDescriptor>),
    /// The file is not a plugin.
    Invalid(String),
    /// The file could not be opened.
    Failed(String),
}

/// Something that a host was asked, with its answer.
pub enum Event {
    /// A file was scanned.
    Scanned { path: Seq<char>, format: Format, outcome: ScanOutcome },
    /// A plugin was loaded, or was not, for the reason given.
    Loaded { descriptor: PluginDescriptor, error: Option<Seq<char>> },
    /// A plugin was asked to become active.
    Activated { setup: Setup, activated: bool },
}

/// The host of the plugins.
pub struct Host {
    log: Ghost<Seq<Event>>,
}

impl Host {
    /// What the host was asked so far, in order.
    pub closed spec fn log(&self) -> Seq<Event> {
        self.log@
    }

    /// A host that was asked nothing yet.
    pub fn new() -> (host: Self)
        ensures
            host.log() == Seq::<Event>::empty(),
    {
        Host { log: Ghost(Seq::empty()) }
    }
}

/// A plugin that has been loaded.
pub struct Bridge {
    inner: ClapBridge,
    source: Ghost<PluginDescriptor>,
}

impl Bridge {
    /// The description that it was loaded by.
    pub closed spec fn source(&self) -> PluginDescriptor {
        self.source@
    }
}

/// How a plugin was made.
pub struct PluginState {
    /// The number that it is known by.
    pub number: u64,
    /// Its description.
    pub descriptor: PluginDescriptor,
    /// The description that it was loaded by.
    pub source: PluginDescriptor,
    /// Where it runs.
    pub isolation: Isolation,
    /// What it is active for; `None` where it is not known to be active.
    pub setup: Option<Setup>,
}

/// A plugin: what is known of it, and the plugin itself, which is carried and never
/// looked into.
pub struct Plugin {
    number: u64,
    descriptor: PluginDescriptor,
    instance: PluginInstance,
    source: Ghost<PluginDescriptor>,
    isolation: Ghost<Isolation>,
    setup: Ghost<Option<Setup>>,
}

impl View for Plugin {
    type V = PluginState;

    closed spec fn view(&self) -> PluginState {
        PluginState {
            number: self.number,
            descriptor: self.descriptor,
            source: self.source@,
            isolation: self.isolation@,
            setup: self.setup@,
        }
    }
}

impl Plugin {
    /// The plugin itself.
    pub closed spec fn inner(&self) -> PluginInstance {
        self.instance
    }

    /// The number that it is known by.
    pub fn number(&self) -> (number: u64)
        ensures
            number == self@.number,
    {
        self.number
    }

    /// Its description.
    pub fn descriptor(&self) -> (descriptor: &PluginDescriptor)
        ensures
            *descriptor == self@.descriptor,
    {
        &self.descriptor
    }

    /// Lends out the plugin itself. Whoever has it can make it inactive, so whether
    /// it is active is not known from then on.
    pub fn lend(&mut self) -> (instance: &mut PluginInstance)
        ensures
            *instance == old(self).inner(),
            *final(instance) == final(self).inner(),
            final(self)@ == (PluginState { setup: None, ..old(self)@ }),
    {
        self.setup = Ghost(None);
        &mut self.instance
    }
}

/// Calls `plugin_host::scanner::PluginScanner::scan_file`. The file, its format and
/// what came of the scan are entered in the record of the host. What comes of it
/// depends on what is on disk, so nothing is said of that.
#[verifier::external_body]
pub(crate) fn scan(host: &mut Host, path: &str, format: Format) -> (outcome: ScanOutcome)
    ensures
        final(host).log() == old(host).log().push(
            Event::Scanned { path: path@, format, outcome },
        ),
{
    let format = match format {
        Format::Clap => PluginFormat::Clap,
        Format::Vst3 => PluginFormat::Vst3,
    };
    match PluginScanner::scan_file(Path::new(path), format) {
        ScanResult::Ok(found) => ScanOutcome::Found(found),
        ScanResult::Invalid(message) => ScanOutcome::Invalid(message),
        ScanResult::Error(message) => ScanOutcome::Failed(message),
    }
}

/// Calls `plugin_host::bridge::clap::ClapBridge::new`, which loads the plugin of the
/// given description. The description and what came of it are entered in the record
/// of the host. What comes of it depends on the plugin, so nothing is said of that.
#[verifier::external_body]
pub(crate) fn load_bridge(host: &mut Host, descriptor: &PluginDescriptor) -> (result: Result<
    Bridge,
    String,
>)
    ensures
        match result {
            Ok(bridge) => bridge.source() == *descriptor && final(host).log() == old(
                host,
            ).log().push(Event::Loaded { descriptor: *descriptor, error: None }),
            Err(error) => final(host).log() == old(host).log().push(
                Event::Loaded { descriptor: *descriptor, error: Some(error@) },
            ),
        },
{
    match ClapBridge::new(descriptor) {
        Ok(inner) => Ok(Bridge { inner, source: Ghost(*descriptor) }),
        Err(error) => Err(error),
    }
}

/// Calls `plugin_host::instance::PluginInstance::new` and reads back what is known
/// of the instance. It keeps the number, the description, the loaded plugin and the
/// place to run in that it is given, and it is not active yet.
#[verifier::external_body]
pub(crate) fn make_instance(
    number: u64,
    descriptor: PluginDescriptor,
    bridge: Bridge,
    isolation: Isolation,
) -> (plugin: Plugin)
    ensures
        plugin@ == (PluginState {
            number,
            descriptor,
            source: bridge.source(),
            isolation,
            setup: None,
        }),
{
    let (source, place) = (bridge.source, Ghost(isolation));
    let sandbox = match isolation {
        Isolation::InProcess => SandboxConfig::in_process(),
        Isolation::OutOfProcess => SandboxConfig::out_of_process(),
    };
    let id = PluginInstanceId(number);
    let instance = PluginInstance::new(id, descriptor, Box::new(bridge.inner), sandbox);
    let (number, descriptor) = (instance.id.0, instance.descriptor.clone());
    Plugin { number, descriptor, instance, source, isolation: place, setup: Ghost(None) }
}

/// Calls `plugin_host::instance::PluginInstance::activate`, which tells whether the
/// plugin became active. What it was asked and the answer are entered in the record
/// of the host, and in that of the plugin what it is active for. Whether it becomes
/// active is up to the plugin, so nothing is said of that.
#[verifier::external_body]
pub(crate) fn activate(host: &mut Host, plugin: &mut Plugin, setup: Setup) -> (activated: bool)
    ensures
        final(host).log() == old(host).log().push(Event::Activated { setup, activated }),
        final(plugin)@ == (PluginState {
            setup: if activated {
                Some(setup)
            } else {
                None
            },
            ..old(plugin)@
        }),
{
    plugin.instance.activate(setup.sample_rate.into(), setup.min_block, setup.max_block)
}

}

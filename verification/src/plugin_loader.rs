//! Making a plugin ready to play from its file.
pub mod host;

pub use crate::plugin_loader::host::{
    Bridge, Event, Format, Host, Isolation, Plugin, PluginState, ScanOutcome, Setup,
};
use crate::plugin_loader::host::{activate, load_bridge, make_instance, scan};
use plugin_host::descriptor::PluginDescriptor;
use vstd::prelude::*;

verus! {

/// The smallest number of frames that a plugin is asked to process at once.
pub const MIN_BLOCK: usize = 1;

/// The greatest number of frames that a plugin is asked to process at once.
pub const MAX_BLOCK: usize = 512;

/// What is said where a plugin file cannot be used; `None` where it holds a plugin.
pub open spec fn scan_error(scan: ScanOutcome) -> Option<Seq<char>> {
    match scan {
        ScanOutcome::Invalid(message) => Some("invalid plugin file: "@ + message@),
        ScanOutcome::Failed(message) => Some("error scanning plugin: "@ + message@),
        ScanOutcome::Found(found) => if found@.len() == 0 {
            Some("no plugins found in the library"@)
        } else {
            None
        },
    }
}

/// What a plugin is asked to become active for.
pub open spec fn setup_for(sample_rate: u32) -> Setup {
    Setup { sample_rate, min_block: MIN_BLOCK, max_block: MAX_BLOCK }
}

/// A plugin that is ready to play: it runs in this process and is active. It is known
/// by the low 64 bits of the time in nanoseconds.
pub open spec fn ready(
    descriptor: PluginDescriptor,
    source: PluginDescriptor,
    sample_rate: u32,
    nanos: u128,
) -> PluginState {
    PluginState {
        number: (nanos % 0x1_0000_0000_0000_0000) as u64,
        descriptor,
        source,
        isolation: Isolation::InProcess,
        setup: Some(setup_for(sample_rate)),
    }
}

/// Whether `result` is what becomes of a plugin that has been loaded, while the record
/// of the host goes from `before` to `after`: the plugin is asked once to become
/// active, and is ready where it does.
pub open spec fn readies(
    before: Seq<Event>,
    after: Seq<Event>,
    descriptor: PluginDescriptor,
    source: PluginDescriptor,
    sample_rate: u32,
    nanos: u128,
    result: Result<Plugin, String>,
) -> bool {
    &&& after == before.push(
        Event::Activated { setup: setup_for(sample_rate), activated: result is Ok },
    )
    &&& match result {
        Ok(plugin) => plugin@ == ready(descriptor, source, sample_rate, nanos),
        Err(error) => error@ == "failed to activate plugin"@,
    }
}

/// Whether `result` is what becomes of a scanned file, while the record of the host
/// goes from `before` to `after`. A file without a plugin is refused and nothing is
/// asked of the host. Otherwise the first plugin is loaded, and made ready where that
/// succeeds.
pub open spec fn loads(
    before: Seq<Event>,
    after: Seq<Event>,
    outcome: ScanOutcome,
    sample_rate: u32,
    nanos: u128,
    result: Result<Plugin, String>,
) -> bool {
    match scan_error(outcome) {
        Some(text) => after == before && (result matches Err(error) && error@ == text),
        None => {
            let first = outcome->Found_0@[0];
            ||| result matches Err(error) && after == before.push(
                Event::Loaded { descriptor: first, error: Some(error@) },
            )
            ||| readies(
                before.push(Event::Loaded { descriptor: first, error: None }),
                after,
                first,
                first,
                sample_rate,
                nanos,
                result,
            )
        },
    }
}

/// The first plugin of a file, or what is wrong with the file.
pub fn first_plugin(scan: ScanOutcome) -> (result: Result<PluginDescriptor, String>)
    ensures
        match scan_error(scan) {
            Some(text) => result matches Err(error) && error@ == text,
            None => result == Ok::<PluginDescriptor, String>(scan->Found_0@[0]),
        },
{
    match scan {
        ScanOutcome::Found(found) => {
            let mut found = found;
            if found.len() == 0 {
                Err("no plugins found in the library".to_owned())
            } else {
                Ok(found.swap_remove(0))
            }
        },
        ScanOutcome::Invalid(message) => {
            let mut text = "invalid plugin file: ".to_owned();
            text.append(message.as_str());
            Err(text)
        },
        ScanOutcome::Failed(message) => {
            let mut text = "error scanning plugin: ".to_owned();
            text.append(message.as_str());
            Err(text)
        },
    }
}

/// A plugin that has been asked to become active, or what is said where it refused.
pub fn confirm(plugin: Plugin, activated: bool) -> (result: Result<Plugin, String>)
    ensures
        activated ==> result == Ok::<Plugin, String>(plugin),
        !activated ==> (result matches Err(error) && error@ == "failed to activate plugin"@),
{
    if activated {
        Ok(plugin)
    } else {
        Err("failed to activate plugin".to_owned())
    }
}

/// The number that a plugin is known by: the time in nanoseconds, of which the low
/// 64 bits are kept.
pub fn instance_number(nanos: u128) -> (id: u64)
    ensures
        id == nanos % 0x1_0000_0000_0000_0000,
{
    (nanos % 0x1_0000_0000_0000_0000) as u64
}

/// Makes a plugin ready to play, given what came of loading it. A plugin that could
/// not be loaded is refused for the reason given; one that was loaded may still
/// refuse to become active.
pub fn make_ready(
    host: &mut Host,
    descriptor: PluginDescriptor,
    loaded: Result<Bridge, String>,
    sample_rate: u32,
    nanos: u128,
) -> (result: Result<Plugin, String>)
    ensures
        match loaded {
            Err(error) => result == Err::<Plugin, String>(error) && final(host).log() == old(
                host,
            ).log(),
            Ok(bridge) => readies(
                old(host).log(),
                final(host).log(),
                descriptor,
                bridge.source(),
                sample_rate,
                nanos,
                result,
            ),
        },
{
    match loaded {
        Ok(bridge) => {
            let number = instance_number(nanos);
            let mut plugin = make_instance(number, descriptor, bridge, Isolation::InProcess);
            let setup = Setup { sample_rate, min_block: MIN_BLOCK, max_block: MAX_BLOCK };
            let activated = activate(host, &mut plugin, setup);
            confirm(plugin, activated)
        },
        Err(error) => Err(error),
    }
}

/// Makes the first plugin of a scanned file ready to play. `nanos` is the time, by
/// which the plugin will be known. A file without a plugin is refused; beyond that
/// it is up to the plugin whether it can be loaded and becomes active.
pub fn load_scanned(
    host: &mut Host,
    outcome: ScanOutcome,
    sample_rate: u32,
    nanos: u128,
) -> (result: Result<Plugin, String>)
    ensures
        loads(old(host).log(), final(host).log(), outcome, sample_rate, nanos, result),
{
    let descriptor = match first_plugin(outcome) {
        Ok(descriptor) => descriptor,
        Err(error) => {
            return Err(error);
        },
    };
    let loaded = load_bridge(host, &descriptor);
    make_ready(host, descriptor, loaded, sample_rate, nanos)
}

/// Makes the first plugin of a file of the CLAP format ready to play. The file is
/// scanned once, before anything else; what follows depends on what came of that.
pub fn load_plugin(host: &mut Host, path: &str, sample_rate: u32, nanos: u128) -> (result: Result<
    Plugin,
    String,
>)
    ensures
        exists|outcome: ScanOutcome| #[trigger]
            loads(
                old(host).log().push(
                    Event::Scanned { path: path@, format: Format::Clap, outcome },
                ),
                final(host).log(),
                outcome,
                sample_rate,
                nanos,
                result,
            ),
{
    let outcome = scan(host, path, Format::Clap);
    load_scanned(host, outcome, sample_rate, nanos)
}

/// A file gives a plugin exactly where it holds one, the first one in it could be
/// loaded, and that became active. Where the file holds none, nothing is loaded.
pub proof fn success_takes_all_three(
    before: Seq<Event>,
    after: Seq<Event>,
    outcome: ScanOutcome,
    sample_rate: u32,
    nanos: u128,
    result: Result<Plugin, String>,
)
    requires
        loads(before, after, outcome, sample_rate, nanos, result),
    ensures
        result is Ok <==> scan_error(outcome) is None && after == before.push(
            Event::Loaded { descriptor: outcome->Found_0@[0], error: None },
        ).push(Event::Activated { setup: setup_for(sample_rate), activated: true }),
        scan_error(outcome) is Some ==> after == before,
{
    if scan_error(outcome) is None {
        let loaded = Event::Loaded { descriptor: outcome->Found_0@[0], error: None };
        let active = Event::Activated { setup: setup_for(sample_rate), activated: true };
        let all = before.push(loaded).push(active);
        assert(all.len() == before.len() + 2);
        assert(all.last() == active);
    }
}

/// Loading only adds to the record of the host, so a scan that was entered before it
/// stays where it was.
pub proof fn loading_only_adds_to_the_record(
    before: Seq<Event>,
    after: Seq<Event>,
    outcome: ScanOutcome,
    sample_rate: u32,
    nanos: u128,
    result: Result<Plugin, String>,
)
    requires
        loads(before, after, outcome, sample_rate, nanos, result),
    ensures
        before.is_prefix_of(after),
{
    assert(after.take(before.len() as int) =~= before);
}

/// Which other plugins a file holds makes no difference.
pub proof fn only_the_first_plugin_matters(
    before: Seq<Event>,
    after: Seq<Event>,
    outcome: ScanOutcome,
    other: ScanOutcome,
    sample_rate: u32,
    nanos: u128,
    result: Result<Plugin, String>,
)
    requires
        scan_error(outcome) is None,
        scan_error(other) is None,
        outcome->Found_0@[0] == other->Found_0@[0],
    ensures
        loads(before, after, outcome, sample_rate, nanos, result) == loads(
            before,
            after,
            other,
            sample_rate,
            nanos,
            result,
        ),
{
}

/// What is said of a file that cannot be used names what is wrong with it, and of a file
/// with a plugin nothing is said.
pub proof fn unusable_files_are_told_apart(message: String, found: Vec<PluginDescriptor>)
    ensures
        scan_error(ScanOutcome::Invalid(message)) == Some("invalid plugin file: "@ + message@),
        scan_error(ScanOutcome::Failed(message)) == Some("error scanning plugin: "@ + message@),
        found@.len() == 0 ==> scan_error(ScanOutcome::Found(found)) == Some(
            "no plugins found in the library"@,
        ),
        found@.len() > 0 ==> scan_error(ScanOutcome::Found(found)) is None,
{
}

/// A plugin that a file gives is the first one in it, loaded by its own description,
/// running in this process, numbered by the time and active at the rate asked for, for
/// blocks of one to 512 frames; it was loaded once and then made active once.
pub proof fn a_plugin_given_is_the_first_one_and_ready(
    before: Seq<Event>,
    after: Seq<Event>,
    outcome: ScanOutcome,
    sample_rate: u32,
    nanos: u128,
    plugin: Plugin,
)
    requires
        loads(before, after, outcome, sample_rate, nanos, Ok::<Plugin, String>(plugin)),
    ensures
        outcome is Found,
        outcome->Found_0@.len() > 0,
        plugin@.descriptor == outcome->Found_0@[0],
        plugin@.source == outcome->Found_0@[0],
        plugin@.number == nanos % 0x1_0000_0000_0000_0000,
        plugin@.isolation is InProcess,
        plugin@.setup matches Some(setup) && setup.sample_rate == sample_rate && setup.min_block
            == 1 && setup.max_block == 512,
        after.len() == before.len() + 2,
        after.take(before.len() as int) == before,
        after[before.len() as int] == (Event::Loaded {
            descriptor: outcome->Found_0@[0],
            error: None,
        }),
        after[before.len() as int + 1] == (Event::Activated {
            setup: Setup { sample_rate, min_block: 1, max_block: 512 },
            activated: true,
        }),
{
    assert(after.take(before.len() as int) =~= before);
}

/// A file that gives no plugin gives the reason. It is that of the scan, and nothing was
/// loaded; or that of the first plugin, which could not be loaded and was not made active;
/// or that the plugin was loaded and would not become active.
pub proof fn a_refusal_names_what_went_wrong(
    before: Seq<Event>,
    after: Seq<Event>,
    outcome: ScanOutcome,
    sample_rate: u32,
    nanos: u128,
    error: String,
)
    requires
        loads(before, after, outcome, sample_rate, nanos, Err::<Plugin, String>(error)),
    ensures
        outcome matches ScanOutcome::Invalid(message) ==> after == before && error@
            == "invalid plugin file: "@ + message@,
        outcome matches ScanOutcome::Failed(message) ==> after == before && error@
            == "error scanning plugin: "@ + message@,
        outcome matches ScanOutcome::Found(found) ==> {
            &&& found@.len() == 0 ==> after == before && error@
                == "no plugins found in the library"@
            &&& found@.len() > 0 ==> {
                ||| after == before.push(
                    Event::Loaded { descriptor: found@[0], error: Some(error@) },
                )
                ||| error@ == "failed to activate plugin"@ && after == before.push(
                    Event::Loaded { descriptor: found@[0], error: None },
                ).push(
                    Event::Activated {
                        setup: Setup { sample_rate, min_block: 1, max_block: 512 },
                        activated: false,
                    },
                )
            }
        },
{
}

}

//! How a node is set up: the command line, its identity and its address.

use crate::discovery::AGENT_PORT;
use crate::text;
use crate::text::{decimal, hexadecimal, parse_number, same_text, split_all, strip_prefix};
use vstd::prelude::*;
use vstd::string::StringExecFns;

verus! {

/// The value of the first argument that starts with `prefix`, without it.
pub open spec fn first_with_prefix(args: Seq<Seq<char>>, prefix: Seq<char>) -> Option<Seq<char>>
    decreases args.len(),
{
    if args.len() == 0 {
        None
    } else if prefix.is_prefix_of(args[0]) {
        Some(args[0].skip(prefix.len() as int))
    } else {
        first_with_prefix(args.skip(1), prefix)
    }
}

/// The argument after the first one that is `k`.
pub open spec fn after_first(args: Seq<Seq<char>>, k: Seq<char>) -> Option<Seq<char>>
    decreases args.len(),
{
    if args.len() == 0 {
        None
    } else if args[0] == k {
        if args.len() > 1 {
            Some(args[1])
        } else {
            None
        }
    } else {
        after_first(args.skip(1), k)
    }
}

/// The value given for the flag `k`, as `k=value` or else as `k value`.
pub open spec fn flag_value(args: Seq<Seq<char>>, k: Seq<char>) -> Option<Seq<char>> {
    match first_with_prefix(args, k.push('=')) {
        Some(value) => Some(value),
        None => after_first(args, k),
    }
}

/// The value given for the flag `k`.
pub fn arg(args: &Vec<String>, k: &str) -> (value: Option<String>)
    ensures
        match value {
            Some(v) => flag_value(text::texts(args@), k@) == Some(v@),
            None => flag_value(text::texts(args@), k@) is None,
        },
{
    let ghost all = text::texts(args@);
    let mut prefix = k.to_owned();
    prefix.append("=");
    proof {
        reveal_strlit("=");
    }
    assert(prefix@ =~= k@.push('='));
    assert(all.skip(0) =~= all);
    let mut i: usize = 0;
    while i < args.len()
        invariant
            i <= args.len(),
            all == text::texts(args@),
            prefix@ == k@.push('='),
            first_with_prefix(all, prefix@) == first_with_prefix(all.skip(i as int), prefix@),
        decreases args.len() - i,
    {
        assert(all.skip(i as int)[0] == args@[i as int]@);
        assert(all.skip(i as int).skip(1) =~= all.skip(i + 1));
        match strip_prefix(args[i].as_str(), prefix.as_str()) {
            Some(rest) => {
                return Some(rest);
            },
            None => {},
        }
        i += 1;
    }
    assert(all.skip(i as int).len() == 0);
    i = 0;
    while i < args.len()
        invariant
            i <= args.len(),
            all == text::texts(args@),
            flag_value(all, k@) == after_first(all, k@),
            after_first(all, k@) == after_first(all.skip(i as int), k@),
        decreases args.len() - i,
    {
        assert(all.skip(i as int)[0] == args@[i as int]@);
        assert(all.skip(i as int).skip(1) =~= all.skip(i + 1));
        if same_text(args[i].as_str(), k) {
            if i + 1 < args.len() {
                assert(all.skip(i as int)[1] == args@[i + 1]@);
                return Some(args[i + 1].clone());
            }
            return None;
        }
        i += 1;
    }
    assert(all.skip(i as int).len() == 0);
    None
}

/// Whether the bare flag `k` was given.
pub fn has_flag(args: &Vec<String>, k: &str) -> (given: bool)
    ensures
        given == text::texts(args@).contains(k@),
{
    let ghost all = text::texts(args@);
    let mut i: usize = 0;
    while i < args.len()
        invariant
            i <= args.len(),
            all == text::texts(args@),
            forall|j: int| 0 <= j < i ==> all[j] != k@,
        decreases args.len() - i,
    {
        assert(all[i as int] == args@[i as int]@);
        if same_text(args[i].as_str(), k) {
            return true;
        }
        i += 1;
    }
    false
}

/// What the command line says.
pub struct Settings {
    pub data: Option<String>,
    pub device: Option<String>,
    pub port: u16,
    pub bootstrap: Vec<String>,
    pub peer_prefix: String,
    pub lan_discovery: bool,
    pub interval: u64,
    pub insecure_local_api: bool,
    pub advertise: Option<String>,
}

/// What settings say.
#[verifier::ext_equal]
pub struct SettingsView {
    pub data: Option<Seq<char>>,
    pub device: Option<Seq<char>>,
    pub port: u16,
    pub bootstrap: Seq<Seq<char>>,
    pub peer_prefix: Seq<char>,
    pub lan_discovery: bool,
    pub interval: u64,
    pub insecure_local_api: bool,
    pub advertise: Option<Seq<char>>,
}

/// The text of a string, if there is one.
pub open spec fn text_of(s: Option<String>) -> Option<Seq<char>> {
    match s {
        Some(t) => Some(t@),
        None => None,
    }
}

impl View for Settings {
    type V = SettingsView;

    open spec fn view(&self) -> SettingsView {
        SettingsView {
            data: text_of(self.data),
            device: text_of(self.device),
            port: self.port,
            bootstrap: text::texts(self.bootstrap@),
            peer_prefix: self.peer_prefix@,
            lan_discovery: self.lan_discovery,
            interval: self.interval,
            insecure_local_api: self.insecure_local_api,
            advertise: text_of(self.advertise),
        }
    }
}

/// The number that `value` reads as, or `default` where it reads as none.
pub open spec fn number_or(value: Option<Seq<char>>, max: nat, default: nat) -> nat {
    match value {
        Some(v) => match text::number(v, max) {
            Some(n) => n,
            None => default,
        },
        None => default,
    }
}

/// What a command line says.
pub open spec fn configured(args: Seq<Seq<char>>) -> SettingsView {
    SettingsView {
        data: flag_value(args, "--data"@),
        device: flag_value(args, "--device"@),
        port: number_or(flag_value(args, "--port"@), u16::MAX as nat, AGENT_PORT as nat) as u16,
        bootstrap: match flag_value(args, "--bootstrap"@) {
            Some(list) => text::pieces(list, ','),
            None => Seq::empty(),
        },
        peer_prefix: match flag_value(args, "--peer-prefix"@) {
            Some(prefix) => prefix,
            None => Seq::empty(),
        },
        lan_discovery: !args.contains("--no-lan-discovery"@),
        interval: number_or(flag_value(args, "--interval"@), u64::MAX as nat, 5) as u64,
        insecure_local_api: args.contains("--insecure-local-api"@),
        advertise: flag_value(args, "--advertise"@),
    }
}

/// Reads a number of at most `max`, with a default for anything else.
pub fn parse_or(value: &Option<String>, max: u64, default: u64) -> (n: u64)
    ensures
        n == number_or(text_of(*value), max as nat, default as nat),
{
    match value {
        Some(v) => match parse_number(v.as_str(), max) {
            Some(n) => n,
            None => default,
        },
        None => default,
    }
}

/// Reads the command line.
pub fn configure(args: &Vec<String>) -> (settings: Settings)
    ensures
        settings@ == configured(text::texts(args@)),
{
    let port = parse_or(&arg(args, "--port"), 0xffff, AGENT_PORT as u64);
    let bootstrap = match arg(args, "--bootstrap") {
        Some(list) => split_all(list.as_str(), ','),
        None => Vec::new(),
    };
    assert(flag_value(text::texts(args@), "--bootstrap"@) is None ==> text::texts(bootstrap@)
        =~= Seq::empty());
    let peer_prefix = match arg(args, "--peer-prefix") {
        Some(prefix) => prefix,
        None => String::new(),
    };
    assert(flag_value(text::texts(args@), "--peer-prefix"@) is None ==> peer_prefix@
        =~= Seq::empty());
    Settings {
        data: arg(args, "--data"),
        device: arg(args, "--device"),
        port: port as u16,
        bootstrap,
        peer_prefix,
        lan_discovery: !has_flag(args, "--no-lan-discovery"),
        interval: parse_or(&arg(args, "--interval"), u64::MAX, 5),
        insecure_local_api: has_flag(args, "--insecure-local-api"),
        advertise: arg(args, "--advertise"),
    }
}

/// A device id made of a time in nanoseconds and a process number.
pub open spec fn made_id(nanos: u128, pid: u32) -> Seq<char> {
    "device-"@ + text::numeral(nanos as nat, 16).push('-') + text::numeral(pid as nat, 16)
}

/// Makes a device id from a time in nanoseconds and a process number.
pub fn generate_device_id(nanos: u128, pid: u32) -> (id: String)
    ensures
        id@ == made_id(nanos, pid),
{
    let mut id = "device-".to_owned();
    id.append(hexadecimal(nanos).as_str());
    id.append("-");
    id.append(hexadecimal(pid as u128).as_str());
    proof {
        reveal_strlit("-");
    }
    assert(id@ =~= made_id(nanos, pid));
    id
}

/// Device ids made at different times or by different processes differ.
pub proof fn law_made_ids_differ(nanos: u128, pid: u32, nanos2: u128, pid2: u32)
    requires
        made_id(nanos, pid) == made_id(nanos2, pid2),
    ensures
        nanos == nanos2,
        pid == pid2,
{
    let a = text::numeral(nanos as nat, 16);
    let b = text::numeral(nanos2 as nat, 16);
    let rest = made_id(nanos, pid).skip("device-"@.len() as int);
    assert(rest =~= a.push('-') + text::numeral(pid as nat, 16));
    assert(rest =~= b.push('-') + text::numeral(pid2 as nat, 16));
    text::lemma_numerals_differ(nanos as nat, nanos2 as nat, 16);
    text::lemma_numerals_differ(nanos2 as nat, nanos as nat, 16);
    text::lemma_numerals_differ(pid as nat, pid2 as nat, 16);
    assert(rest[a.len() as int] == '-');
    assert(rest[b.len() as int] == '-');
    if a.len() < b.len() {
        assert(rest[a.len() as int] == b[a.len() as int]);
    } else if b.len() < a.len() {
        assert(rest[b.len() as int] == a[b.len() as int]);
    }
    assert(a =~= rest.take(a.len() as int));
    assert(b =~= rest.take(b.len() as int));
    assert(text::numeral(pid as nat, 16) =~= rest.skip(a.len() as int + 1));
    assert(text::numeral(pid2 as nat, 16) =~= rest.skip(b.len() as int + 1));
}

/// The identity of a node, and whether it was made just now and is still to
/// be kept for the next start.
pub struct Identity {
    pub device: String,
    pub fresh: bool,
}

/// The identity that a file keeps: what it holds, without the white space
/// around it, unless that is nothing.
pub fn kept_device_id(contents: &str) -> (id: Option<String>)
    ensures
        text_of(id) == if text::trimmed(contents@).len() > 0 {
            Some(text::trimmed(contents@))
        } else {
            None
        },
{
    let id = text::trim(contents);
    if id.as_str().is_empty() {
        None
    } else {
        Some(id)
    }
}

/// Settles the identity of a node: the one given on the command line always
/// wins, then the one kept from an earlier start, then the one made now.
pub fn resolve_device_id(
    given: Option<String>,
    kept: Option<String>,
    nanos: u128,
    pid: u32,
) -> (identity: Identity)
    ensures
        identity.device@ == match (given, kept) {
            (Some(id), _) => id@,
            (None, Some(id)) => id@,
            (None, None) => made_id(nanos, pid),
        },
        identity.fresh == (given is None && kept is None),
{
    match given {
        Some(device) => Identity { device, fresh: false },
        None => match kept {
            Some(device) => Identity { device, fresh: false },
            None => Identity { device: generate_device_id(nanos, pid), fresh: true },
        },
    }
}

/// A host and a port as they are written together.
pub open spec fn host_port(host: Seq<char>, port: u16) -> Seq<char> {
    host.push(':') + text::numeral(port as nat, 10)
}

/// Writes a host and a port together.
pub fn endpoint(host: &str, port: u16) -> (addr: String)
    ensures
        addr@ == host_port(host@, port),
{
    let mut addr = host.to_owned();
    addr.append(":");
    addr.append(decimal(port as u64).as_str());
    proof {
        reveal_strlit(":");
    }
    assert(addr@ =~= host_port(host@, port));
    addr
}

/// The address that a node hands out to peers: the one given on the command
/// line, else the one of the environment, else its tailnet address, else its
/// address on the local network, else the loopback address.
pub fn advertised_address(
    given: Option<String>,
    environment: Option<String>,
    tailnet_ip: Option<String>,
    lan_ip: Option<String>,
    port: u16,
) -> (addr: String)
    ensures
        addr@ == match (given, environment, tailnet_ip, lan_ip) {
            (Some(addr), _, _, _) => addr@,
            (None, Some(addr), _, _) => addr@,
            (None, None, Some(ip), _) => host_port(ip@, port),
            (None, None, None, Some(ip)) => host_port(ip@, port),
            (None, None, None, None) => host_port("127.0.0.1"@, port),
        },
{
    match given {
        Some(addr) => {
            return addr;
        },
        None => {},
    }
    match environment {
        Some(addr) => {
            return addr;
        },
        None => {},
    }
    match tailnet_ip {
        Some(ip) => {
            return endpoint(ip.as_str(), port);
        },
        None => {},
    }
    match lan_ip {
        Some(ip) => endpoint(ip.as_str(), port),
        None => endpoint("127.0.0.1", port),
    }
}

/// The name of the machine: what the hostname command printed, without the
/// white space around it, or the device where it printed nothing readable.
pub fn machine_name(printed: Option<String>, device: &str) -> (name: String)
    ensures
        name@ == match printed {
            Some(line) => text::trimmed(line@),
            None => device@,
        },
{
    match printed {
        Some(line) => text::trim(line.as_str()),
        None => device.to_owned(),
    }
}

/// The first argument that starts with the prefix counts, without the
/// prefix, and there is none exactly if no argument starts with it.
pub proof fn law_the_first_with_the_prefix_counts(
    args: Seq<Seq<char>>,
    prefix: Seq<char>,
    value: Seq<char>,
    i: int,
)
    ensures
        0 <= i < args.len() && args[i] == prefix + value && (forall|j: int|
            0 <= j < i ==> !prefix.is_prefix_of(#[trigger] args[j])) ==> first_with_prefix(
            args,
            prefix,
        ) == Some(value),
        (forall|j: int| 0 <= j < args.len() ==> !prefix.is_prefix_of(#[trigger] args[j]))
            ==> first_with_prefix(args, prefix) is None,
    decreases args.len(),
{
    assert((prefix + value).subrange(0, prefix.len() as int) =~= prefix);
    assert((prefix + value).skip(prefix.len() as int) =~= value);
    if args.len() > 0 && !prefix.is_prefix_of(args[0]) {
        let rest = args.skip(1);
        assert forall|j: int| 0 <= j < rest.len() implies #[trigger] rest[j] == args[j + 1] by {}
        law_the_first_with_the_prefix_counts(rest, prefix, value, i - 1);
        if 0 < i < args.len() && args[i] == prefix + value && (forall|j: int|
            0 <= j < i ==> !prefix.is_prefix_of(#[trigger] args[j])) {
            assert(rest[i - 1] == args[i]);
            assert forall|j: int| 0 <= j < i - 1 implies !prefix.is_prefix_of(
                #[trigger] rest[j],
            ) by {
                assert(!prefix.is_prefix_of(args[j + 1]));
            }
        }
        if forall|j: int| 0 <= j < args.len() ==> !prefix.is_prefix_of(#[trigger] args[j]) {
            assert forall|j: int| 0 <= j < rest.len() implies !prefix.is_prefix_of(
                #[trigger] rest[j],
            ) by {
                assert(!prefix.is_prefix_of(args[j + 1]));
            }
        }
    }
}

/// What follows the first argument of a name counts, and there is nothing
/// where no argument is that name, or only the last.
pub proof fn law_what_follows_the_name_counts(args: Seq<Seq<char>>, k: Seq<char>, i: int)
    ensures
        0 <= i < args.len() - 1 && args[i] == k && (forall|j: int|
            0 <= j < i ==> #[trigger] args[j] != k) ==> after_first(args, k) == Some(args[i + 1]),
        (forall|j: int| 0 <= j < args.len() - 1 ==> #[trigger] args[j] != k) ==> after_first(
            args,
            k,
        ) is None,
    decreases args.len(),
{
    if args.len() > 0 && args[0] != k {
        let rest = args.skip(1);
        assert forall|j: int| 0 <= j < rest.len() implies #[trigger] rest[j] == args[j + 1] by {}
        law_what_follows_the_name_counts(rest, k, i - 1);
        if 0 < i < args.len() - 1 && args[i] == k && (forall|j: int|
            0 <= j < i ==> #[trigger] args[j] != k) {
            assert(rest[i - 1] == args[i]);
            assert(rest[i] == args[i + 1]);
            assert forall|j: int| 0 <= j < i - 1 implies #[trigger] rest[j] != k by {
                assert(args[j + 1] != k);
            }
        }
        if forall|j: int| 0 <= j < args.len() - 1 ==> #[trigger] args[j] != k {
            assert forall|j: int| 0 <= j < rest.len() - 1 implies #[trigger] rest[j] != k by {
                assert(args[j + 1] != k);
            }
        }
    }
}

/// A value that is given with an equals sign goes before one that follows
/// the flag.
pub proof fn law_the_equals_sign_goes_first(args: Seq<Seq<char>>, k: Seq<char>)
    ensures
        first_with_prefix(args, k + seq!['=']) is Some ==> flag_value(args, k) == first_with_prefix(
            args,
            k + seq!['='],
        ),
        first_with_prefix(args, k + seq!['=']) is None ==> flag_value(args, k) == after_first(
            args,
            k,
        ),
{
    assert(k.push('=') =~= k + seq!['=']);
}

/// A number that reads counts, and the default counts in every other case.
pub proof fn law_defaults_stand_in_for_what_does_not_read(
    value: Option<Seq<char>>,
    max: nat,
    default: nat,
)
    ensures
        value is Some && text::number(value->0, max) is Some ==> Some(
            number_or(value, max, default),
        ) == text::number(value->0, max),
        value is Some && text::number(value->0, max) is None ==> number_or(value, max, default)
            == default,
        value is None ==> number_or(value, max, default) == default,
{
}

/// What settings say is in their fields.
pub proof fn law_settings_say_their_fields(settings: Settings, given: Option<String>)
    ensures
        settings@.port == settings.port,
        settings@.peer_prefix == settings.peer_prefix@,
        settings@.lan_discovery == settings.lan_discovery,
        settings@.interval == settings.interval,
        settings@.insecure_local_api == settings.insecure_local_api,
        settings@.data == text_of(settings.data),
        settings@.device == text_of(settings.device),
        settings@.advertise == text_of(settings.advertise),
        settings@.bootstrap.len() == settings.bootstrap@.len(),
        forall|i: int|
            0 <= i < settings.bootstrap@.len() ==> #[trigger] settings@.bootstrap[i]
                == settings.bootstrap@[i]@,
        given is None <==> text_of(given) is None,
        given matches Some(t) ==> text_of(given) == Some(t@),
{
}

/// Each setting is read from its own flag, and has its default where the
/// flag is not given or does not read.
pub proof fn law_each_setting_has_its_flag(args: Seq<Seq<char>>)
    ensures
        ({
            let set = configured(args);
            let port = flag_value(args, "--port"@);
            let interval = flag_value(args, "--interval"@);
            let bootstrap = flag_value(args, "--bootstrap"@);
            let prefix = flag_value(args, "--peer-prefix"@);
            &&& set.data == flag_value(args, "--data"@)
            &&& set.device == flag_value(args, "--device"@)
            &&& set.advertise == flag_value(args, "--advertise"@)
            &&& if port is Some && text::number(port->0, 65535) is Some {
                text::number(port->0, 65535) == Some(set.port as nat)
            } else {
                set.port == 47100
            }
            &&& if interval is Some && text::number(interval->0, 0xffff_ffff_ffff_ffff) is Some {
                text::number(interval->0, 0xffff_ffff_ffff_ffff) == Some(set.interval as nat)
            } else {
                set.interval == 5
            }
            &&& if bootstrap is Some {
                set.bootstrap == text::pieces(bootstrap->0, ',')
            } else {
                set.bootstrap.len() == 0
            }
            &&& if prefix is Some {
                set.peer_prefix == prefix->0
            } else {
                set.peer_prefix.len() == 0
            }
            &&& set.lan_discovery <==> forall|i: int|
                0 <= i < args.len() ==> #[trigger] args[i] != "--no-lan-discovery"@
            &&& set.insecure_local_api <==> exists|i: int|
                0 <= i < args.len() && #[trigger] args[i] == "--insecure-local-api"@
        }),
{
}

/// A device id is made of a word, the time and the process number, both in
/// hexadecimal, and an address is made of a host and a port in decimal.
pub proof fn law_what_ids_and_addresses_are_made_of(
    nanos: u128,
    pid: u32,
    host: Seq<char>,
    port: u16,
)
    ensures
        made_id(nanos, pid) == "device-"@ + text::numeral(nanos as nat, 16) + seq!['-']
            + text::numeral(pid as nat, 16),
        host_port(host, port) == host + seq![':'] + text::numeral(port as nat, 10),
{
    assert(made_id(nanos, pid) =~= "device-"@ + text::numeral(nanos as nat, 16) + seq!['-']
        + text::numeral(pid as nat, 16));
    assert(host_port(host, port) =~= host + seq![':'] + text::numeral(port as nat, 10));
}

} // verus!

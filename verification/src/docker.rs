//! The docker commands the emulator runs: their options and the arguments they make.
use vstd::prelude::*;
use crate::common::{Subnet, cidr_of};
use crate::text::{dotted, dec_text, dotted_text};

verus! {

/// The texts of a sequence of strings.
pub open spec fn texts(v: Seq<String>) -> Seq<Seq<char>> {
    v.map_values(|s: String| s@)
}

/// The texts of a sequence of pairs of strings, each written `key=value`.
pub open spec fn pair_texts(v: Seq<(String, String)>) -> Seq<Seq<char>> {
    v.map_values(|p: (String, String)| p.0@ + "="@ + p.1@)
}

/// Appends a text to the arguments.
fn push_arg(args: &mut Vec<String>, s: &str)
    ensures
        texts(final(args)@) == texts(old(args)@).push(s@),
{
    args.push(s.to_owned());
    proof {
        assert(texts(args@) =~= texts(old(args)@).push(s@));
    }
}

/// Appends a string to the arguments.
fn push_string(args: &mut Vec<String>, s: String)
    ensures
        texts(final(args)@) == texts(old(args)@).push(s@),
{
    args.push(s);
    proof {
        assert(texts(args@) =~= texts(old(args)@).push(s@));
    }
}

/// `key=value`.
fn key_value(key: &str, value: &str) -> (s: String)
    ensures
        s@ == key@ + "="@ + value@,
{
    let eq = "=";
    let mut s = key.to_owned();
    s.append(eq);
    s.append(value);
    s
}

/// Inserts a key and its value in a list of pairs, replacing the value of the key if it is
/// there already.
fn insert_pair(pairs: &mut Vec<(String, String)>, key: &str, value: &str)
    ensures
        keys_unique(old(pairs)@) ==> pair_map(final(pairs)@) == pair_map(old(pairs)@).insert(key@, value@)
            && keys_unique(final(pairs)@),
        (forall|j: int| 0 <= j < old(pairs)@.len() ==> (#[trigger] old(pairs)@[j]).0@ != key@) ==> {
            &&& final(pairs)@.len() == old(pairs)@.len() + 1
            &&& final(pairs)@.drop_last() == old(pairs)@
            &&& final(pairs)@.last().0@ == key@
            &&& final(pairs)@.last().1@ == value@
        },
{
    let k = key.to_owned();
    let mut i: usize = 0;
    while i < pairs.len()
        invariant
            i <= pairs@.len(),
            *pairs == *old(pairs),
            k@ == key@,
            forall|j: int| 0 <= j < i ==> (#[trigger] pairs@[j]).0@ != key@,
        decreases pairs@.len() - i,
    {
        if pairs[i].0 == k {
            let ghost before = pairs@;
            let key_copy = pairs[i].0.clone();
            pairs.set(i, (key_copy, value.to_owned()));
            proof {
                if keys_unique(before) {
                    lemma_pair_map_set(before, i as int, key@, value@);
                    assert(pairs@ == before.update(i as int, pairs@[i as int]));
                    assert forall|a: int, b: int| 0 <= a < b < pairs@.len() implies (#[trigger] pairs@[a]).0@ != (#[trigger] pairs@[b]).0@ by {
                        assert(before[a].0@ != before[b].0@);
                    }
                }
                assert(before[i as int].0@ == key@);
            }
            return;
        }
        i = i + 1;
    }
    let ghost before = pairs@;
    pairs.push((k, value.to_owned()));
    proof {
        lemma_pair_map_push(before, key@, value@);
        assert(pairs@ == before.push(pairs@.last()));
        assert(pairs@.drop_last() =~= before);
        if keys_unique(before) {
            assert forall|a: int, b: int| 0 <= a < b < pairs@.len() implies (#[trigger] pairs@[a]).0@ != (#[trigger] pairs@[b]).0@ by {
                if b < before.len() {
                    assert(before[a].0@ != before[b].0@);
                } else {
                    assert(before[a].0@ != key@);
                }
            }
        }
    }
}

/// The map of keys to values that a list of pairs holds, the later pair of a key winning.
pub open spec fn pair_map(v: Seq<(String, String)>) -> Map<Seq<char>, Seq<char>>
    decreases v.len(),
{
    if v.len() == 0 {
        Map::empty()
    } else {
        pair_map(v.drop_last()).insert(v.last().0@, v.last().1@)
    }
}

/// No key is held twice.
pub open spec fn keys_unique(v: Seq<(String, String)>) -> bool {
    forall|a: int, b: int| 0 <= a < b < v.len() ==> (#[trigger] v[a]).0@ != (#[trigger] v[b]).0@
}

proof fn lemma_pair_map_push(v: Seq<(String, String)>, k: Seq<char>, val: Seq<char>)
    requires
        forall|j: int| 0 <= j < v.len() ==> (#[trigger] v[j]).0@ != k,
    ensures
        forall|p: (String, String)|
            #![trigger v.push(p)]
            p.0@ == k && p.1@ == val ==> pair_map(v.push(p)) == pair_map(v).insert(k, val),
{
    assert forall|p: (String, String)| #![trigger v.push(p)] p.0@ == k && p.1@ == val implies pair_map(v.push(p)) == pair_map(v).insert(k, val) by {
        assert(v.push(p).drop_last() =~= v);
    }
}

proof fn lemma_pair_map_set(v: Seq<(String, String)>, i: int, k: Seq<char>, val: Seq<char>)
    requires
        0 <= i < v.len(),
        v[i].0@ == k,
        keys_unique(v),
    ensures
        forall|p: (String, String)|
            #![trigger v.update(i, p)]
            p.0@ == k && p.1@ == val ==> pair_map(v.update(i, p)) == pair_map(v).insert(k, val),
    decreases v.len(),
{
    assert forall|p: (String, String)| #![trigger v.update(i, p)] p.0@ == k && p.1@ == val implies pair_map(v.update(i, p)) == pair_map(v).insert(k, val) by {
        let w = v.update(i, p);
        if i == v.len() - 1 {
            assert(w.drop_last() =~= v.drop_last());
            assert(pair_map(w) =~= pair_map(v).insert(k, val));
        } else {
            assert(w.drop_last() =~= v.drop_last().update(i, p));
            assert(keys_unique(v.drop_last())) by {
                assert forall|a: int, b: int| 0 <= a < b < v.drop_last().len() implies (#[trigger] v.drop_last()[a]).0@ != (#[trigger] v.drop_last()[b]).0@ by {
                    assert(v[a].0@ != v[b].0@);
                }
            }
            lemma_pair_map_set(v.drop_last(), i, k, val);
            assert(v[i].0@ != v[v.len() - 1].0@);
            assert(pair_map(w.drop_last()) == pair_map(v.drop_last()).insert(k, val));
            if v.last().0@ == k {
                assert(pair_map(w) =~= pair_map(v).insert(k, val));
            } else {
                assert(pair_map(w) =~= pair_map(v).insert(k, val));
            }
        }
    }
}

/// The driver of a docker network.
#[derive(Clone, Copy, Debug, PartialEq, Eq)]
pub enum NetworkDriver {
    Bridge,
    MacVlan,
    IpVlan,
}

/// The argument that names a driver.
pub open spec fn driver_arg(d: NetworkDriver) -> Seq<char> {
    match d {
        NetworkDriver::Bridge => "bridge"@,
        NetworkDriver::MacVlan => "macvlan"@,
        NetworkDriver::IpVlan => "ipvlan"@,
    }
}

impl NetworkDriver {
    /// The argument that names the driver.
    pub fn to_arg(&self) -> (s: &'static str)
        ensures
            s@ == driver_arg(*self),
    {
        match self {
            NetworkDriver::Bridge => "bridge",
            NetworkDriver::MacVlan => "macvlan",
            NetworkDriver::IpVlan => "ipvlan",
        }
    }
}

/// The options of `docker run`.
#[derive(Clone, Debug)]
pub struct RunOpts {
    pub rm: bool,
    pub detach: bool,
    pub interactive: bool,
    pub tty: bool,
    pub network: Option<String>,
    pub name: Option<String>,
    pub volume: Option<String>,
    pub ip: Option<[u8; 4]>,
}

/// The arguments of an option that is given: the flag and its value.
pub open spec fn opt_args(flag: Seq<char>, v: Option<String>) -> Seq<Seq<char>> {
    match v {
        Some(s) => seq![flag, s@],
        None => Seq::empty(),
    }
}

/// The argument of a switch that is on.
pub open spec fn flag_arg(flag: Seq<char>, on: bool) -> Seq<Seq<char>> {
    if on {
        seq![flag]
    } else {
        Seq::empty()
    }
}

/// The arguments of `docker run` with these options, image and command.
pub open spec fn run_args_spec(opts: RunOpts, image: Seq<char>, command: Option<Seq<char>>) -> Seq<Seq<char>> {
    seq!["run"@] + flag_arg("--rm"@, opts.rm) + flag_arg("-d"@, opts.detach) + flag_arg("-i"@, opts.interactive)
        + flag_arg("-t"@, opts.tty) + opt_args("--network"@, opts.network) + opt_args("--name"@, opts.name)
        + opt_args("-v"@, opts.volume) + match opts.ip {
        Some(ip) => seq!["--ip"@, dotted(ip@)],
        None => Seq::empty(),
    } + seq![image] + match command {
        Some(c) => seq![c],
        None => Seq::empty(),
    }
}

/// Appends a switch's argument, if it is on.
fn push_flag(args: &mut Vec<String>, flag: &str, on: bool)
    ensures
        texts(final(args)@) == texts(old(args)@) + flag_arg(flag@, on),
{
    if on {
        push_arg(args, flag);
    } else {
        proof {
            assert(texts(args@) =~= texts(old(args)@) + flag_arg(flag@, on));
        }
    }
}

/// Appends an option's flag and value, if it is given.
fn push_opt(args: &mut Vec<String>, flag: &str, v: &Option<String>)
    ensures
        texts(final(args)@) == texts(old(args)@) + opt_args(flag@, *v),
{
    match v {
        Some(s) => {
            push_arg(args, flag);
            push_string(args, s.clone());
        },
        None => {},
    }
    proof {
        assert(texts(args@) =~= texts(old(args)@) + opt_args(flag@, *v));
    }
}

impl RunOpts {
    pub fn new() -> (o: RunOpts)
        ensures
            !o.rm && !o.detach && !o.interactive && !o.tty,
            o.network is None && o.name is None && o.volume is None && o.ip is None,
    {
        RunOpts {
            rm: false,
            detach: false,
            interactive: false,
            tty: false,
            network: None,
            name: None,
            volume: None,
            ip: None,
        }
    }

    pub fn rm(&mut self, rm: bool)
        ensures
            *final(self) == (RunOpts { rm, ..*old(self) }),
    {
        self.rm = rm;
    }

    pub fn detach(&mut self, detach: bool)
        ensures
            *final(self) == (RunOpts { detach, ..*old(self) }),
    {
        self.detach = detach;
    }

    pub fn interactive(&mut self, interactive: bool)
        ensures
            *final(self) == (RunOpts { interactive, ..*old(self) }),
    {
        self.interactive = interactive;
    }

    pub fn tty(&mut self, tty: bool)
        ensures
            *final(self) == (RunOpts { tty, ..*old(self) }),
    {
        self.tty = tty;
    }

    pub fn network(&mut self, network: &str)
        ensures
            final(self).network matches Some(n) && n@ == network@,
            final(self).rm == old(self).rm && final(self).detach == old(self).detach,
            final(self).interactive == old(self).interactive && final(self).tty == old(self).tty,
            final(self).name == old(self).name && final(self).volume == old(self).volume && final(self).ip == old(self).ip,
    {
        self.network = Some(network.to_owned());
    }

    pub fn name(&mut self, name: &str)
        ensures
            final(self).name matches Some(n) && n@ == name@,
            final(self).rm == old(self).rm && final(self).detach == old(self).detach,
            final(self).interactive == old(self).interactive && final(self).tty == old(self).tty,
            final(self).network == old(self).network && final(self).volume == old(self).volume && final(self).ip == old(self).ip,
    {
        self.name = Some(name.to_owned());
    }

    pub fn volume(&mut self, volume: &str)
        ensures
            final(self).volume matches Some(n) && n@ == volume@,
            final(self).rm == old(self).rm && final(self).detach == old(self).detach,
            final(self).interactive == old(self).interactive && final(self).tty == old(self).tty,
            final(self).network == old(self).network && final(self).name == old(self).name && final(self).ip == old(self).ip,
    {
        self.volume = Some(volume.to_owned());
    }

    pub fn ip(&mut self, ip: [u8; 4])
        ensures
            *final(self) == (RunOpts { ip: Some(ip), ..*old(self) }),
    {
        self.ip = Some(ip);
    }
}

/// The arguments of `docker run` with these options, this image and this command.
pub fn run_args(opts: &RunOpts, image: &str, command: Option<&str>) -> (args: Vec<String>)
    ensures
        texts(args@) == run_args_spec(
            *opts,
            image@,
            match command {
                Some(c) => Some(c@),
                None => None,
            },
        ),
{
    let mut args: Vec<String> = Vec::new();
    push_arg(&mut args, "run");
    push_flag(&mut args, "--rm", opts.rm);
    push_flag(&mut args, "-d", opts.detach);
    push_flag(&mut args, "-i", opts.interactive);
    push_flag(&mut args, "-t", opts.tty);
    push_opt(&mut args, "--network", &opts.network);
    push_opt(&mut args, "--name", &opts.name);
    push_opt(&mut args, "-v", &opts.volume);
    let ghost before_ip = texts(args@);
    match opts.ip {
        Some(ip) => {
            push_arg(&mut args, "--ip");
            push_string(&mut args, dotted_text(ip));
        },
        None => {},
    }
    push_arg(&mut args, image);
    let ghost before_command = texts(args@);
    match command {
        Some(c) => push_arg(&mut args, c),
        None => {},
    }
    proof {
        reveal_strlit("run");
        assert(texts(args@) =~= run_args_spec(
            *opts,
            image@,
            match command {
                Some(c) => Some(c@),
                None => None,
            },
        ));
    }
    args
}

/// The arguments of `docker stop`.
pub fn stop_args(name: &str) -> (args: Vec<String>)
    ensures
        texts(args@) == seq!["stop"@, name@],
{
    let mut args: Vec<String> = Vec::new();
    push_arg(&mut args, "stop");
    push_arg(&mut args, name);
    args
}

/// The arguments of `docker inspect`.
pub fn inspect_args(format: &str) -> (args: Vec<String>)
    ensures
        texts(args@) == seq!["inspect"@, "--format"@, format@],
{
    let mut args: Vec<String> = Vec::new();
    push_arg(&mut args, "inspect");
    push_arg(&mut args, "--format");
    push_arg(&mut args, format);
    args
}

/// The arguments of `docker network rm`.
pub fn network_rm_args(name: &str) -> (args: Vec<String>)
    ensures
        texts(args@) == seq!["network"@, "rm"@, name@],
{
    let mut args: Vec<String> = Vec::new();
    push_arg(&mut args, "network");
    push_arg(&mut args, "rm");
    push_arg(&mut args, name);
    args
}

/// The options of `docker network ls`: filters, each a key and a value, and quietness.
#[derive(Clone, Debug)]
pub struct NetworkLsOpts {
    pub filters: Vec<(String, String)>,
    pub quiet: bool,
}

impl NetworkLsOpts {
    pub fn new() -> (o: NetworkLsOpts)
        ensures
            o.filters@.len() == 0,
            !o.quiet,
    {
        NetworkLsOpts { filters: Vec::new(), quiet: false }
    }

    /// Adds a filter, replacing the value of a filter of the same key.
    pub fn filter(&mut self, filter: (&str, &str))
        ensures
            keys_unique(old(self).filters@) ==> pair_map(final(self).filters@) == pair_map(old(self).filters@).insert(
                filter.0@,
                filter.1@,
            ) && keys_unique(final(self).filters@),
            (forall|j: int| 0 <= j < old(self).filters@.len() ==> (#[trigger] old(self).filters@[j]).0@ != filter.0@) ==> {
                &&& final(self).filters@.len() == old(self).filters@.len() + 1
                &&& final(self).filters@.drop_last() == old(self).filters@
                &&& final(self).filters@.last().0@ == filter.0@
                &&& final(self).filters@.last().1@ == filter.1@
            },
            final(self).quiet == old(self).quiet,
    {
        insert_pair(&mut self.filters, filter.0, filter.1);
    }

    pub fn quiet(&mut self, quiet: bool)
        ensures
            final(self).quiet == quiet,
            final(self).filters == old(self).filters,
    {
        self.quiet = quiet;
    }
}

/// Appends, for each pair, a flag and the pair written `key=value`.
fn push_pairs(args: &mut Vec<String>, flag: &str, pairs: &Vec<(String, String)>)
    ensures
        texts(final(args)@) == texts(old(args)@) + pairs_args(flag@, pair_texts(pairs@)),
{
    let mut i: usize = 0;
    while i < pairs.len()
        invariant
            i <= pairs@.len(),
            texts(args@) == texts(old(args)@) + pairs_args(flag@, pair_texts(pairs@.subrange(0, i as int))),
        decreases pairs@.len() - i,
    {
        let ghost before = texts(args@);
        push_arg(args, flag);
        push_string(args, key_value(pairs[i].0.as_str(), pairs[i].1.as_str()));
        proof {
            let p = pair_texts(pairs@.subrange(0, i + 1));
            assert(p =~= pair_texts(pairs@.subrange(0, i as int)).push(pairs@[i as int].0@ + "="@ + pairs@[i as int].1@));
            lemma_pairs_args_push(flag@, pair_texts(pairs@.subrange(0, i as int)), pairs@[i as int].0@ + "="@ + pairs@[i as int].1@);
            assert(texts(args@) =~= texts(old(args)@) + pairs_args(flag@, p));
        }
        i = i + 1;
    }
    proof {
        assert(pairs@.subrange(0, pairs@.len() as int) =~= pairs@);
    }
}

/// The flag and the text of each entry, in order.
pub open spec fn pairs_args(flag: Seq<char>, entries: Seq<Seq<char>>) -> Seq<Seq<char>>
    decreases entries.len(),
{
    if entries.len() == 0 {
        Seq::empty()
    } else {
        pairs_args(flag, entries.drop_last()) + seq![flag, entries.last()]
    }
}

proof fn lemma_pairs_args_push(flag: Seq<char>, entries: Seq<Seq<char>>, e: Seq<char>)
    ensures
        pairs_args(flag, entries.push(e)) == pairs_args(flag, entries) + seq![flag, e],
{
    assert(entries.push(e).drop_last() =~= entries);
}

/// The arguments of `docker network ls` with these options.
pub fn network_ls_args(opts: &NetworkLsOpts) -> (args: Vec<String>)
    ensures
        texts(args@) == seq!["network"@, "ls"@] + flag_arg("--quiet"@, opts.quiet) + pairs_args(
            "--filter"@,
            pair_texts(opts.filters@),
        ),
{
    let mut args: Vec<String> = Vec::new();
    push_arg(&mut args, "network");
    push_arg(&mut args, "ls");
    push_flag(&mut args, "--quiet", opts.quiet);
    push_pairs(&mut args, "--filter", &opts.filters);
    proof {
        assert(texts(args@) =~= seq!["network"@, "ls"@] + flag_arg("--quiet"@, opts.quiet) + pairs_args(
            "--filter"@,
            pair_texts(opts.filters@),
        ));
    }
    args
}

/// The options of `docker network create`.
#[derive(Clone, Debug)]
pub struct NetworkCreateOpts {
    pub driver: NetworkDriver,
    pub gateway: Option<[u8; 4]>,
    pub subnet: Option<Subnet>,
    pub opts: Vec<(String, String)>,
    pub range: Option<Subnet>,
}

/// `a.b.c.d/n`, the text of a subnet.
pub open spec fn subnet_text(s: Subnet) -> Seq<char> {
    dotted(s.ip@) + "/"@ + dec_text(cidr_of(s.mask.bytes@) as nat)
}

/// The arguments of `docker network create` with these options and this name.
pub open spec fn create_args_spec(opts: NetworkCreateOpts, name: Seq<char>) -> Seq<Seq<char>> {
    seq!["network"@, "create"@, "-d"@, driver_arg(opts.driver)] + match opts.gateway {
        Some(g) => seq!["--gateway="@ + dotted(g@)],
        None => Seq::empty(),
    } + match opts.subnet {
        Some(s) => seq!["--subnet="@ + subnet_text(s)],
        None => Seq::empty(),
    } + pairs_args("-o"@, pair_texts(opts.opts@)) + match opts.range {
        Some(r) => seq!["--ip-range"@, subnet_text(r)],
        None => Seq::empty(),
    } + seq![name]
}

impl NetworkCreateOpts {
    pub fn new() -> (o: NetworkCreateOpts)
        ensures
            o.driver == NetworkDriver::Bridge,
            o.gateway is None && o.subnet is None && o.range is None,
            o.opts@.len() == 0,
    {
        NetworkCreateOpts { driver: NetworkDriver::Bridge, gateway: None, subnet: None, opts: Vec::new(), range: None }
    }

    pub fn driver(&mut self, driver: NetworkDriver)
        ensures
            final(self).driver == driver,
            final(self).gateway == old(self).gateway && final(self).subnet == old(self).subnet,
            final(self).opts == old(self).opts && final(self).range == old(self).range,
    {
        self.driver = driver;
    }

    pub fn gateway(&mut self, gateway: [u8; 4])
        ensures
            final(self).gateway == Some(gateway),
            final(self).driver == old(self).driver && final(self).subnet == old(self).subnet,
            final(self).opts == old(self).opts && final(self).range == old(self).range,
    {
        self.gateway = Some(gateway);
    }

    pub fn subnet(&mut self, subnet: Subnet)
        ensures
            final(self).subnet == Some(subnet),
            final(self).driver == old(self).driver && final(self).gateway == old(self).gateway,
            final(self).opts == old(self).opts && final(self).range == old(self).range,
    {
        self.subnet = Some(subnet);
    }

    pub fn range(&mut self, range: Subnet)
        ensures
            final(self).range == Some(range),
            final(self).driver == old(self).driver && final(self).gateway == old(self).gateway,
            final(self).opts == old(self).opts && final(self).subnet == old(self).subnet,
    {
        self.range = Some(range);
    }

    /// Adds a driver option, replacing the value of an option of the same key.
    pub fn opt(&mut self, opt: (&str, &str))
        ensures
            keys_unique(old(self).opts@) ==> pair_map(final(self).opts@) == pair_map(old(self).opts@).insert(opt.0@, opt.1@)
                && keys_unique(final(self).opts@),
            (forall|j: int| 0 <= j < old(self).opts@.len() ==> (#[trigger] old(self).opts@[j]).0@ != opt.0@) ==> {
                &&& final(self).opts@.len() == old(self).opts@.len() + 1
                &&& final(self).opts@.drop_last() == old(self).opts@
                &&& final(self).opts@.last().0@ == opt.0@
                &&& final(self).opts@.last().1@ == opt.1@
            },
            final(self).driver == old(self).driver && final(self).gateway == old(self).gateway,
            final(self).subnet == old(self).subnet && final(self).range == old(self).range,
    {
        insert_pair(&mut self.opts, opt.0, opt.1);
    }
}

/// The arguments of `docker network create` with these options and this name.
pub fn network_create_args(opts: &NetworkCreateOpts, name: &str) -> (args: Vec<String>)
    ensures
        texts(args@) == create_args_spec(*opts, name@),
{
    let mut args: Vec<String> = Vec::new();
    push_arg(&mut args, "network");
    push_arg(&mut args, "create");
    push_arg(&mut args, "-d");
    push_arg(&mut args, opts.driver.to_arg());
    match opts.gateway {
        Some(g) => {
            let mut s = String::from_str("--gateway=");
            let t = dotted_text(g);
            s.append(t.as_str());
            push_string(&mut args, s);
        },
        None => {},
    }
    match &opts.subnet {
        Some(sub) => {
            let mut s = String::from_str("--subnet=");
            let t = sub.text();
            s.append(t.as_str());
            push_string(&mut args, s);
        },
        None => {},
    }
    push_pairs(&mut args, "-o", &opts.opts);
    match &opts.range {
        Some(r) => {
            push_arg(&mut args, "--ip-range");
            push_string(&mut args, r.text());
        },
        None => {},
    }
    push_arg(&mut args, name);
    proof {
        assert(texts(args@) =~= create_args_spec(*opts, name@));
    }
    args
}

/// The name of the emulator's docker network.
pub const NETWORK_NAME: &'static str = "kollaps_ipvlan";

/// Runs the emulator's containers on its docker network.
#[derive(Clone, Debug)]
pub struct DockerHelper {
    pub network_name: String,
}

impl DockerHelper {
    /// A helper on the emulator's network.
    pub fn new() -> (h: DockerHelper)
        ensures
            h.network_name@ == NETWORK_NAME@,
    {
        DockerHelper { network_name: NETWORK_NAME.to_owned() }
    }

    /// The arguments that list the emulator's network, quietly.
    pub fn network_lookup_args() -> (args: Vec<String>)
        ensures
            texts(args@) == seq!["network"@, "ls"@, "--quiet"@, "--filter"@, "name"@ + "="@ + NETWORK_NAME@],
    {
        let mut opts = NetworkLsOpts::new();
        opts.quiet(true);
        opts.filter(("name", NETWORK_NAME));
        let args = network_ls_args(&opts);
        proof {
            reveal_strlit("name");
            assert(pair_texts(opts.filters@) =~= seq!["name"@ + "="@ + NETWORK_NAME@]);
            assert(pairs_args("--filter"@, pair_texts(opts.filters@)) =~= seq!["--filter"@, "name"@ + "="@ + NETWORK_NAME@]) by {
                let e = pair_texts(opts.filters@);
                assert(e.drop_last() =~= Seq::<Seq<char>>::empty());
                assert(pairs_args("--filter"@, e.drop_last()) =~= Seq::<Seq<char>>::empty());
            }
            assert(texts(args@) =~= seq!["network"@, "ls"@, "--quiet"@, "--filter"@, "name"@ + "="@ + NETWORK_NAME@]);
        }
        args
    }

    /// Whether the emulator's network must be created: the listing of it printed nothing.
    pub fn network_missing(listing: &str) -> (b: bool)
        ensures
            b == (listing@.len() == 0),
    {
        listing.unicode_len() == 0
    }

    /// The arguments that create the emulator's network: an IPvlan network on `interface`,
    /// in `subnet`, behind `gateway`.
    pub fn create_network_args(interface: &str, subnet: Subnet, gateway: [u8; 4]) -> (args: Vec<String>)
        ensures
            texts(args@) == seq!["network"@, "create"@, "-d"@, "ipvlan"@, "--gateway="@ + dotted(gateway@), "--subnet="@
                + subnet_text(subnet), "-o"@, "parent"@ + "="@ + interface@, NETWORK_NAME@],
    {
        let mut opts = NetworkCreateOpts::new();
        opts.driver(NetworkDriver::IpVlan);
        opts.gateway(gateway);
        opts.subnet(subnet);
        opts.opt(("parent", interface));
        let args = network_create_args(&opts, NETWORK_NAME);
        proof {
            assert(pair_texts(opts.opts@) =~= seq!["parent"@ + "="@ + interface@]);
            assert(pairs_args("-o"@, pair_texts(opts.opts@)) =~= seq!["-o"@, "parent"@ + "="@ + interface@]) by {
                let e = pair_texts(opts.opts@);
                assert(e.drop_last() =~= Seq::<Seq<char>>::empty());
                assert(pairs_args("-o"@, e.drop_last()) =~= Seq::<Seq<char>>::empty());
            }
            assert(texts(args@) =~= seq!["network"@, "create"@, "-d"@, "ipvlan"@, "--gateway="@ + dotted(gateway@), "--subnet="@
                + subnet_text(subnet), "-o"@, "parent"@ + "="@ + interface@, NETWORK_NAME@]);
        }
        args
    }

    /// The arguments that run a container of `image`, named `name`, at `ip` on the
    /// emulator's network, removed when it stops, interactive, with a terminal, detached.
    pub fn launch_container_args(&self, image: &str, name: &str, ip: [u8; 4], cmd: Option<&str>) -> (args: Vec<String>)
        ensures
            texts(args@) == seq!["run"@, "--rm"@, "-d"@, "-i"@, "-t"@, "--network"@, self.network_name@, "--name"@, name@, "--ip"@, dotted(ip@), image@]
                + match cmd {
                Some(c) => seq![c@],
                None => Seq::empty(),
            },
    {
        let mut opts = RunOpts::new();
        opts.rm(true);
        opts.interactive(true);
        opts.tty(true);
        opts.detach(true);
        opts.network(self.network_name.as_str());
        opts.name(name);
        opts.ip(ip);
        let args = run_args(&opts, image, cmd);
        proof {
            assert(texts(args@) =~= seq!["run"@, "--rm"@, "-d"@, "-i"@, "-t"@, "--network"@, self.network_name@, "--name"@, name@, "--ip"@, dotted(ip@), image@]
                + match cmd {
                Some(c) => seq![c@],
                None => Seq::empty(),
            });
        }
        args
    }

    /// The arguments that stop a container.
    pub fn stop_container_args(&self, name: &str) -> (args: Vec<String>)
        ensures
            texts(args@) == seq!["stop"@, name@],
    {
        stop_args(name)
    }

    /// The arguments that delete the emulator's network.
    pub fn delete_network_args(&self) -> (args: Vec<String>)
        ensures
            texts(args@) == seq!["network"@, "rm"@, self.network_name@],
    {
        network_rm_args(self.network_name.as_str())
    }
}

} // verus!

//! The applications of an emulation and the flows of data between them.
use vstd::prelude::*;
use vstd::laws_eq::obeys_concrete_eq;
use vstd::std_specs::cmp::PartialEqSpec;

verus! {

/// How an application is run.
#[derive(Clone, Debug)]
pub enum ApplicationKind {
    /// On the host itself.
    BareMetal,
    /// In a container, made from an image and a command or already existing.
    Container(ContainerConfig),
}

/// A container: an existing one (no image and command) or one to start from an image and
/// an optional command.
#[derive(Clone, Debug)]
pub struct ContainerConfig {
    name: String,
    id: Option<String>,
    image_command: Option<(String, Option<String>)>,
}

/// The state of an application.
#[derive(Clone, Copy, Debug, PartialEq, Eq)]
pub enum AppStatus {
    NotInit,
    Running,
    Stopped,
    Crashed,
}

/// A copy of an optional text.
fn clone_opt(s: &Option<String>) -> (r: Option<String>)
    ensures
        match (r, *s) {
            (Some(a), Some(b)) => a@ == b@,
            (None, None) => true,
            _ => false,
        },
{
    match s {
        Some(v) => Some(v.clone()),
        None => None,
    }
}

impl ContainerConfig {
    /// The name of the container.
    pub closed spec fn name_view(&self) -> Seq<char> {
        self.name@
    }

    /// The identifier of the container, if known.
    pub closed spec fn id_view(&self) -> Option<Seq<char>> {
        match self.id {
            Some(i) => Some(i@),
            None => None,
        }
    }

    /// The image of the container, if it must be started.
    pub closed spec fn image_view(&self) -> Option<Seq<char>> {
        match self.image_command {
            Some((im, _)) => Some(im@),
            None => None,
        }
    }

    /// The command of the container, if it must be started with one.
    pub closed spec fn command_view(&self) -> Option<Seq<char>> {
        match self.image_command {
            Some((_, Some(c))) => Some(c@),
            _ => None,
        }
    }

    /// A container configuration; the name, and the image and command when given, are not
    /// empty.
    pub fn new(name: String, id: Option<String>, image_command: Option<(String, Option<String>)>) -> (c: ContainerConfig)
        requires
            name@.len() > 0,
            image_command matches Some((im, com)) ==> im@.len() > 0 && (com matches Some(cm) ==> cm@.len() > 0),
        ensures
            c.name_view() == name@,
            c.id_view() == (match id {
                Some(i) => Some(i@),
                None => None::<Seq<char>>,
            }),
            c.image_view() == (match image_command {
                Some((im, _)) => Some(im@),
                None => None::<Seq<char>>,
            }),
            c.command_view() == (match image_command {
                Some((_, Some(cm))) => Some(cm@),
                _ => None::<Seq<char>>,
            }),
    {
        ContainerConfig { name, id, image_command }
    }

    /// The image, if the container must be started.
    pub fn image(&self) -> (r: Option<String>)
        ensures
            match r {
                Some(s) => self.image_view() == Some(s@),
                None => self.image_view() is None,
            },
    {
        match &self.image_command {
            None => None,
            Some((im, _)) => Some(im.clone()),
        }
    }

    /// The command, if the container must be started with one.
    pub fn command(&self) -> (r: Option<String>)
        ensures
            match r {
                Some(s) => self.command_view() == Some(s@),
                None => self.command_view() is None,
            },
    {
        match &self.image_command {
            None => None,
            Some((_, com)) => clone_opt(com),
        }
    }

    /// The name of the container.
    pub fn name(&self) -> (r: String)
        ensures
            r@ == self.name_view(),
    {
        self.name.clone()
    }

    /// The identifier of the container, if known.
    pub fn id(&self) -> (r: Option<String>)
        ensures
            match r {
                Some(s) => self.id_view() == Some(s@),
                None => self.id_view() is None,
            },
    {
        clone_opt(&self.id)
    }
}

/// Data going from a source to a destination: the bandwidth it may use, the bandwidth it
/// uses, the most it asks for, and whether it wants more than it was given.
#[derive(Clone, Copy, Debug)]
pub struct Flow<T> {
    pub source: T,
    pub destination: T,
    pub authorized_bandwidth: u32,
    pub used_bandwidth: u32,
    pub max_allowed_bandwidth: u32,
    pub is_hungry: bool,
}

impl<T: Copy + PartialEq> Flow<T> {
    /// Whether the flow wants more than it was given.
    pub open spec fn hungry(&self) -> bool {
        self.is_hungry
    }

    /// A flow of nothing authorised yet, not hungry.
    pub fn build(source: T, destination: T, max_allowed_bandwidth: u32, used_bandwidth: u32) -> (f: Flow<T>)
        ensures
            f.source == source,
            f.destination == destination,
            f.authorized_bandwidth == 0,
            f.used_bandwidth == used_bandwidth,
            f.max_allowed_bandwidth == max_allowed_bandwidth,
            !f.hungry(),
    {
        Flow { source, destination, authorized_bandwidth: 0, max_allowed_bandwidth, used_bandwidth, is_hungry: false }
    }

    pub fn is_hungry(&self) -> (b: bool)
        ensures
            b == self.hungry(),
    {
        self.is_hungry
    }

    pub fn set_hungry(&mut self, val: bool)
        ensures
            final(self).hungry() == val,
            final(self).source == old(self).source,
            final(self).destination == old(self).destination,
            final(self).authorized_bandwidth == old(self).authorized_bandwidth,
            final(self).used_bandwidth == old(self).used_bandwidth,
            final(self).max_allowed_bandwidth == old(self).max_allowed_bandwidth,
    {
        self.is_hungry = val;
    }

    /// Two flows are the same flow when they join the same source to the same destination.
    pub fn same_flow(&self, other: &Flow<T>) -> (b: bool)
        requires
            obeys_concrete_eq::<T>(),
        ensures
            b == (self.source == other.source && self.destination == other.destination),
    {
        proof {
            reveal(obeys_concrete_eq);
        }
        self.source == other.source && self.destination == other.destination
    }
}

/// What a node is asked to do with a flow.
#[derive(Clone, Copy, Debug, PartialEq, Eq)]
pub enum Command {
    ACTIVATE,
    DEACTIVATE,
    UPDATE,
}

/// What happens to an application at a moment of the emulation.
#[derive(Clone, Copy, Debug, PartialEq, Eq)]
pub enum EventAction {
    Join,
    Quit,
    Crash,
}

/// Why a topology was refused.
#[derive(Clone, Debug)]
pub enum TopologyRejectReason {
    TooMuch,
    NoDeploymentFound,
    BadFile(String),
}

impl TopologyRejectReason {
    /// The text that explains the refusal.
    pub fn text(&self) -> (s: String)
        ensures
            s@ == match *self {
                TopologyRejectReason::TooMuch => "Already too much topology is running, please try later"@,
                TopologyRejectReason::NoDeploymentFound => "No deployment suitable for with the actual cluster for your topology"@,
                TopologyRejectReason::BadFile(e) => "Bad file: "@ + e@,
            },
    {
        match self {
            TopologyRejectReason::TooMuch => String::from_str("Already too much topology is running, please try later"),
            TopologyRejectReason::NoDeploymentFound => String::from_str(
                "No deployment suitable for with the actual cluster for your topology",
            ),
            TopologyRejectReason::BadFile(e) => {
                let mut s = String::from_str("Bad file: ");
                s.append(e.as_str());
                s
            },
        }
    }
}

} // verus!

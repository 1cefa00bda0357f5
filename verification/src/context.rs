//! Process-wide configuration: the domain, the directories, the network policy.

use vstd::prelude::*;
use vstd::string::StringExecFns;

verus! {

/// Errors reported by the trust store.
#[derive(Clone, Copy, Debug, PartialEq, Eq, Structural)]
pub enum Error {
    /// The domain of a configuration is empty.
    InvalidDomain,
    /// The candidate key material is malformed.
    InvalidKeyMaterial,
    /// The candidate is unrelated to the bound key: a trust decision is required.
    Conflict,
    /// A store was reopened under another network policy than it was created with.
    PolicyMismatch,
    /// The store, binding or key does not exist (any more).
    NotFound,
    /// A background fetch failed.
    TransportError,
    /// The persistence layer failed, or an identifier space is exhausted.
    StorageFailure,
    /// The operation cannot be done on this value.
    InvalidOperation,
}

/// How much network exposure is allowed, from none to unprotected.
#[derive(Clone, Copy, Debug, PartialEq, Eq, Structural, PartialOrd, Ord, Hash)]
pub enum NetworkPolicy {
    Offline,
    Anonymized,
    Encrypted,
    Insecure,
}

impl NetworkPolicy {
    /// The position of the policy in the order Offline < Anonymized < Encrypted < Insecure.
    pub open spec fn rank(self) -> int {
        match self {
            NetworkPolicy::Offline => 0,
            NetworkPolicy::Anonymized => 1,
            NetworkPolicy::Encrypted => 2,
            NetworkPolicy::Insecure => 3,
        }
    }

    /// The policy as one byte.
    pub fn level(&self) -> (r: u8)
        ensures
            r as int == self.rank(),
    {
        match self {
            NetworkPolicy::Offline => 0,
            NetworkPolicy::Anonymized => 1,
            NetworkPolicy::Encrypted => 2,
            NetworkPolicy::Insecure => 3,
        }
    }

    /// The policy that a byte stands for, if any.
    pub fn from_level(level: u8) -> (r: Option<NetworkPolicy>)
        ensures
            level > 3 <==> r is None,
            r is Some ==> r->0.rank() == level as int,
    {
        if level == 0 {
            Some(NetworkPolicy::Offline)
        } else if level == 1 {
            Some(NetworkPolicy::Anonymized)
        } else if level == 2 {
            Some(NetworkPolicy::Encrypted)
        } else if level == 3 {
            Some(NetworkPolicy::Insecure)
        } else {
            None
        }
    }

    /// Whether `self` allows at most the exposure that `other` allows.
    pub fn at_most(&self, other: &NetworkPolicy) -> (r: bool)
        ensures
            r == (self.rank() <= other.rank()),
    {
        self.level() <= other.level()
    }

    /// Whether the policy lets any network traffic be started.
    pub fn permits_network(&self) -> (r: bool)
        ensures
            r == (*self != NetworkPolicy::Offline),
    {
        match self {
            NetworkPolicy::Offline => false,
            _ => true,
        }
    }
}

/// The order on network policies is total: of two policies one is at most the
/// other, and two policies that are each at most the other are equal.
pub proof fn lemma_policy_total_order(a: NetworkPolicy, b: NetworkPolicy, c: NetworkPolicy)
    ensures
        a.rank() <= b.rank() || b.rank() <= a.rank(),
        a.rank() <= b.rank() && b.rank() <= a.rank() ==> a == b,
        a.rank() <= b.rank() && b.rank() <= c.rank() ==> a.rank() <= c.rank(),
{
}

/// The installation prefix under which backend servers are looked for.
pub fn prefix() -> (r: String)
    ensures
        r@ == "/usr/local"@,
{
    "/usr/local".to_owned()
}

/// The configuration of one process.
#[derive(Debug)]
pub struct Context {
    domain: String,
    home: String,
    lib: String,
    network_policy: NetworkPolicy,
}

/// A `Context` that can still be changed.
#[derive(Debug)]
pub struct Config(Context);

impl Context {
    /// A context is well formed when its domain is not empty.
    pub closed spec fn wf(&self) -> bool {
        self.domain@.len() > 0
    }

    pub closed spec fn spec_domain(&self) -> Seq<char> {
        self.domain@
    }

    pub closed spec fn spec_home(&self) -> Seq<char> {
        self.home@
    }

    pub closed spec fn spec_lib(&self) -> Seq<char> {
        self.lib@
    }

    pub closed spec fn spec_network_policy(&self) -> NetworkPolicy {
        self.network_policy
    }

    /// The home directory of a configuration that names none.
    pub open spec fn default_home() -> Seq<char> {
        ".sequoia"@
    }

    /// The library directory of a configuration that names none.
    pub open spec fn default_lib() -> Seq<char> {
        "/usr/local"@ + "/lib/sequoia"@
    }

    /// Creates a context with the defaults, for a domain that is not empty.
    pub fn new(domain: &str) -> (r: Result<Context, Error>)
        ensures
            domain@.len() == 0 <==> r == Err::<Context, Error>(Error::InvalidDomain),
            domain@.len() > 0 <==> r is Ok,
            r is Ok ==> r->Ok_0.wf() && r->Ok_0.spec_domain() == domain@
                && r->Ok_0.spec_home() == Self::default_home()
                && r->Ok_0.spec_lib() == Self::default_lib()
                && r->Ok_0.spec_network_policy() == NetworkPolicy::Encrypted,
    {
        Self::configure(domain).build()
    }

    /// Starts a configuration with the defaults; `build` finishes it.
    pub fn configure(domain: &str) -> (r: Config)
        ensures
            r.spec_domain() == domain@,
            r.spec_home() == Self::default_home(),
            r.spec_lib() == Self::default_lib(),
            r.spec_network_policy() == NetworkPolicy::Encrypted,
    {
        Config(
            Context {
                domain: domain.to_owned(),
                home: ".sequoia".to_owned(),
                lib: prefix().concat("/lib/sequoia"),
                network_policy: NetworkPolicy::Encrypted,
            },
        )
    }

    /// The domain of the context.
    pub fn domain(&self) -> (r: &str)
        ensures
            r@ == self.spec_domain(),
    {
        self.domain.as_str()
    }

    /// The directory that holds shared state.
    pub fn home(&self) -> (r: &str)
        ensures
            r@ == self.spec_home(),
    {
        self.home.as_str()
    }

    /// The directory that holds backend servers.
    pub fn lib(&self) -> (r: &str)
        ensures
            r@ == self.spec_lib(),
    {
        self.lib.as_str()
    }

    /// The network policy that stores opened under this context get.
    pub fn network_policy(&self) -> (r: NetworkPolicy)
        ensures
            r == self.spec_network_policy(),
    {
        self.network_policy
    }
}

impl Config {
    pub closed spec fn spec_domain(&self) -> Seq<char> {
        self.0.domain@
    }

    pub closed spec fn spec_home(&self) -> Seq<char> {
        self.0.home@
    }

    pub closed spec fn spec_lib(&self) -> Seq<char> {
        self.0.lib@
    }

    pub closed spec fn spec_network_policy(&self) -> NetworkPolicy {
        self.0.network_policy
    }

    /// Finishes the configuration. Fails exactly when the domain is empty.
    pub fn build(self) -> (r: Result<Context, Error>)
        ensures
            self.spec_domain().len() == 0 <==> r == Err::<Context, Error>(Error::InvalidDomain),
            self.spec_domain().len() > 0 <==> r is Ok,
            r is Ok ==> r->Ok_0.wf() && r->Ok_0.spec_domain() == self.spec_domain()
                && r->Ok_0.spec_home() == self.spec_home()
                && r->Ok_0.spec_lib() == self.spec_lib()
                && r->Ok_0.spec_network_policy() == self.spec_network_policy(),
    {
        let c = self.0;
        if c.domain.as_str().is_empty() {
            Err(Error::InvalidDomain)
        } else {
            Ok(c)
        }
    }

    /// Sets the directory that holds shared state.
    pub fn home(self, home: &str) -> (r: Config)
        ensures
            r.spec_home() == home@,
            r.spec_domain() == self.spec_domain(),
            r.spec_lib() == self.spec_lib(),
            r.spec_network_policy() == self.spec_network_policy(),
    {
        let mut c = self;
        c.set_home(home);
        c
    }

    /// Sets the directory that holds shared state.
    pub fn set_home(&mut self, home: &str)
        ensures
            final(self).spec_home() == home@,
            final(self).spec_domain() == old(self).spec_domain(),
            final(self).spec_lib() == old(self).spec_lib(),
            final(self).spec_network_policy() == old(self).spec_network_policy(),
    {
        self.0.home = home.to_owned();
    }

    /// Sets the directory that holds backend servers.
    pub fn lib(self, lib: &str) -> (r: Config)
        ensures
            r.spec_lib() == lib@,
            r.spec_domain() == self.spec_domain(),
            r.spec_home() == self.spec_home(),
            r.spec_network_policy() == self.spec_network_policy(),
    {
        let mut c = self;
        c.set_lib(lib);
        c
    }

    /// Sets the directory that holds backend servers.
    pub fn set_lib(&mut self, lib: &str)
        ensures
            final(self).spec_lib() == lib@,
            final(self).spec_domain() == old(self).spec_domain(),
            final(self).spec_home() == old(self).spec_home(),
            final(self).spec_network_policy() == old(self).spec_network_policy(),
    {
        self.0.lib = lib.to_owned();
    }

    /// Sets the network policy that stores opened under the context get.
    pub fn network_policy(self, policy: NetworkPolicy) -> (r: Config)
        ensures
            r.spec_network_policy() == policy,
            r.spec_domain() == self.spec_domain(),
            r.spec_home() == self.spec_home(),
            r.spec_lib() == self.spec_lib(),
    {
        let mut c = self;
        c.0.network_policy = policy;
        c
    }
}

} // verus!

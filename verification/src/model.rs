//! The records of the registry: one manifest per published version of an LXS, and the
//! summaries built from them.
use vstd::prelude::*;

verus! {

/// Environment variables that an LXS needs or accepts.
pub struct Env {
    pub required: Vec<String>,
    pub optional: Vec<String>,
}

/// Network endpoints that an LXS listens on and talks to.
pub struct Network {
    pub inbound: Vec<String>,
    pub outbound: Vec<String>,
}

/// Resources that an LXS asks for.
pub struct Resources {
    pub memory: String,
    pub disk: String,
    pub startup_seconds: u64,
}

/// The service contract of one LXS version.
pub struct Contract {
    pub version: u32,
    pub api: String,
    pub db: String,
    pub env: Env,
    pub network: Network,
    pub resources: Resources,
}

/// What an LXS version runs on.
pub struct Runtime {
    pub base: String,
    pub libc: String,
    pub dependencies: Vec<String>,
}

/// Where an LXS version was built from.
pub struct Provenance {
    pub source: String,
    pub commit: String,
    pub built_by: String,
    pub built_at: String,
}

/// The manifest (`lxs.yml`) of one published version of an LXS.
pub struct LxsManifest {
    pub name: String,
    pub domain: String,
    pub version: String,
    pub category: String,
    pub publisher: String,
    pub status: String,
    pub summary: String,
    pub targets: Vec<String>,
    pub contract: Contract,
    pub runtime: Runtime,
    pub provenance: Provenance,
    pub release: Vec<String>,
}

/// How many LXS (latest versions only) fall in one category.
pub struct CategoryCount {
    pub name: String,
    pub count: usize,
}

/// The browse card of the latest version of an LXS.
pub struct LxsCard {
    pub name: String,
    pub version: String,
    pub category: String,
    pub status: String,
    pub publisher: String,
    pub summary: String,
    pub runtime: String,
    pub targets: Vec<String>,
    pub source: String,
    pub commit: String,
    pub docs_available: bool,
}

/// The docs bundle shipped with one LXS version.
pub struct LxsDocs {
    pub files: Vec<String>,
    pub has_openapi: bool,
    pub index: String,
    pub api: String,
    pub examples: String,
    pub changelog: String,
    pub gotchas: String,
}

/// Everything known of the latest version of an LXS, with the list of all its versions.
pub struct LxsDetail {
    pub name: String,
    pub domain: String,
    pub version: String,
    pub category: String,
    pub status: String,
    pub publisher: String,
    pub summary: String,
    pub targets: Vec<String>,
    pub contract: Contract,
    pub runtime: Runtime,
    pub provenance: Provenance,
    pub release: Vec<String>,
    pub versions: Vec<String>,
    pub docs: Option<LxsDocs>,
}

/// A request for an LXS that the registry does not hold.
pub enum LookupError {
    NotFound(String),
}

impl Default for Env {
    fn default() -> (r: Self)
        ensures
            r.required@.len() == 0,
            r.optional@.len() == 0,
    {
        Env { required: Vec::new(), optional: Vec::new() }
    }
}

impl Default for Network {
    fn default() -> (r: Self)
        ensures
            r.inbound@.len() == 0,
            r.outbound@.len() == 0,
    {
        Network { inbound: Vec::new(), outbound: Vec::new() }
    }
}

impl Default for Resources {
    fn default() -> (r: Self)
        ensures
            r.memory@.len() == 0,
            r.disk@.len() == 0,
            r.startup_seconds == 0,
    {
        Resources { memory: String::new(), disk: String::new(), startup_seconds: 0 }
    }
}

impl Default for Contract {
    fn default() -> (r: Self)
        ensures
            r.version == 0,
            r.api@.len() == 0,
            r.db@.len() == 0,
            r.env.required@.len() == 0,
            r.env.optional@.len() == 0,
            r.network.inbound@.len() == 0,
            r.network.outbound@.len() == 0,
            r.resources.memory@.len() == 0,
            r.resources.disk@.len() == 0,
            r.resources.startup_seconds == 0,
    {
        Contract {
            version: 0,
            api: String::new(),
            db: String::new(),
            env: Env::default(),
            network: Network::default(),
            resources: Resources::default(),
        }
    }
}

impl Default for Runtime {
    fn default() -> (r: Self)
        ensures
            r.base@.len() == 0,
            r.libc@.len() == 0,
            r.dependencies@.len() == 0,
    {
        Runtime { base: String::new(), libc: String::new(), dependencies: Vec::new() }
    }
}

impl Default for Provenance {
    fn default() -> (r: Self)
        ensures
            r.source@.len() == 0,
            r.commit@.len() == 0,
            r.built_by@.len() == 0,
            r.built_at@.len() == 0,
    {
        Provenance {
            source: String::new(),
            commit: String::new(),
            built_by: String::new(),
            built_at: String::new(),
        }
    }
}

impl Default for LxsManifest {
    fn default() -> (r: Self)
        ensures
            r.name@.len() == 0,
            r.domain@.len() == 0,
            r.version@.len() == 0,
            r.category@.len() == 0,
            r.publisher@.len() == 0,
            r.status@.len() == 0,
            r.summary@.len() == 0,
            r.targets@.len() == 0,
            r.release@.len() == 0,
            r.contract.version == 0,
            r.contract.api@.len() == 0,
            r.contract.db@.len() == 0,
            r.contract.env.required@.len() == 0,
            r.contract.env.optional@.len() == 0,
            r.contract.network.inbound@.len() == 0,
            r.contract.network.outbound@.len() == 0,
            r.contract.resources.memory@.len() == 0,
            r.contract.resources.disk@.len() == 0,
            r.contract.resources.startup_seconds == 0,
            r.runtime.base@.len() == 0,
            r.runtime.libc@.len() == 0,
            r.runtime.dependencies@.len() == 0,
            r.provenance.source@.len() == 0,
            r.provenance.commit@.len() == 0,
            r.provenance.built_by@.len() == 0,
            r.provenance.built_at@.len() == 0,
    {
        LxsManifest {
            name: String::new(),
            domain: String::new(),
            version: String::new(),
            category: String::new(),
            publisher: String::new(),
            status: String::new(),
            summary: String::new(),
            targets: Vec::new(),
            contract: Contract::default(),
            runtime: Runtime::default(),
            provenance: Provenance::default(),
            release: Vec::new(),
        }
    }
}

/// A copy of a list of strings.
pub fn copy_strings(v: &Vec<String>) -> (r: Vec<String>)
    ensures
        r@ == v@,
{
    let mut r: Vec<String> = Vec::new();
    for i in 0..v.len()
        invariant
            r@ == v@.take(i as int),
    {
        r.push(v[i].clone());
        assert(v@.take(i + 1) =~= v@.take(i as int).push(v@[i as int]));
    }
    assert(v@.take(v.len() as int) =~= v@);
    r
}

impl LookupError {
    /// The text of the error, as the API sends it: `LXS <name> not found`.
    pub fn message(&self) -> (r: String)
        ensures
            match self {
                LookupError::NotFound(name) => r@ == "LXS "@ + name@ + " not found"@,
            },
    {
        match self {
            LookupError::NotFound(name) => {
                let mut s = String::from_str("LXS ");
                s.append(name.as_str());
                s.append(" not found");
                s
            },
        }
    }
}

} // verus!

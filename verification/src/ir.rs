//! Typed intermediate representation: the validated model of exactly the
//! supported configuration subset.

use vstd::prelude::*;

verus! {

/// An IP address as a plain value: an IPv4 address as one 32-bit integer
/// (first octet highest), or an IPv6 address as one 128-bit integer.
#[derive(Debug, Clone, Copy, PartialEq, Eq, Hash, Structural)]
pub enum IpAddr {
    V4(u32),
    V6(u128),
}

impl IpAddr {
    /// The unspecified ("any") IPv4 address.
    pub fn unspecified() -> (r: IpAddr)
        ensures
            r == IpAddr::V4(0),
    {
        IpAddr::V4(0)
    }
}

/// A two-state toggle, as written `on` / `off` in configuration text.
#[derive(Debug, Copy, Clone, Eq, PartialEq, Structural)]
pub enum Switch {
    On,
    Off,
}

/// Where PEM material comes from: a filesystem path, or inline text.
#[derive(Debug, PartialEq, Eq)]
pub enum PemSource {
    Path(String),
    InlinePem(String),
}

/// Mathematical image of a `PemSource`.
#[verifier::ext_equal]
pub ghost enum SpecPemSource {
    Path(Seq<char>),
    InlinePem(Seq<char>),
}

impl View for PemSource {
    type V = SpecPemSource;

    open spec fn view(&self) -> SpecPemSource {
        match self {
            PemSource::Path(p) => SpecPemSource::Path(p@),
            PemSource::InlinePem(t) => SpecPemSource::InlinePem(t@),
        }
    }
}

/// One path component pushed onto an accumulated path: an absolute
/// component replaces the path; otherwise a single `/` separates it from a
/// non-empty path that does not already end in one.
pub open spec fn spec_push_path(acc: Seq<char>, part: Seq<char>) -> Seq<char> {
    if part.len() > 0 && part[0] == '/' {
        part
    } else if acc.len() == 0 || acc.last() == '/' {
        acc + part
    } else {
        acc + seq!['/'] + part
    }
}

/// The path components of a PEM source, pushed one after the other.
pub open spec fn spec_join_path(parts: Seq<Seq<char>>) -> Seq<char>
    decreases parts.len(),
{
    if parts.len() == 0 {
        Seq::<char>::empty()
    } else {
        spec_push_path(spec_join_path(parts.drop_last()), parts.last())
    }
}

/// A single component is the whole path.
pub proof fn lemma_join_single(p: Seq<char>)
    ensures
        spec_join_path(seq![p]) == p,
{
    assert(seq![p].drop_last() =~= Seq::<Seq<char>>::empty());
    assert(spec_join_path(Seq::<Seq<char>>::empty()) =~= Seq::<char>::empty());
    assert(spec_push_path(Seq::<char>::empty(), p) =~= p);
    assert(spec_join_path(seq![p]) =~= p);
}

impl PemSource {
    /// Builds a path-backed PEM source from path components.
    pub fn new(raw_path: &[String], _is_inline: bool) -> (r: Result<Self, ()>)
        ensures
            match r {
                Ok(ps) => ps@ == SpecPemSource::Path(spec_join_path(raw_path.deep_view())),
                Err(_) => false,
            },
    {
        let mut path = String::new();
        let n = raw_path.len();
        let mut i: usize = 0;
        proof {
            assert(raw_path.deep_view().take(0) =~= Seq::<Seq<char>>::empty());
        }
        while i < n
            invariant
                n == raw_path@.len(),
                i <= n,
                path@ == spec_join_path(raw_path.deep_view().take(i as int)),
            decreases n - i,
        {
            let part = vstd::slice::slice_index_get(raw_path, i);
            proof {
                reveal_strlit("/");
                assert("/"@ =~= seq!['/']);
            }
            let absolute = part.as_str().unicode_len() > 0 && part.as_str().get_char(0) == '/';
            if absolute {
                path = part.clone();
            } else {
                let plen = path.as_str().unicode_len();
                if plen > 0 && path.as_str().get_char(plen - 1) != '/' {
                    path.append("/");
                }
                path.append(part.as_str());
            }
            proof {
                let parts = raw_path.deep_view();
                assert(parts.take(i + 1).drop_last() =~= parts.take(i as int));
                assert(parts.take(i + 1).last() == parts[i as int]);
                assert(parts[i as int] == raw_path@[i as int]@);
                assert(path@ =~= spec_push_path(spec_join_path(parts.take(i as int)), parts[
                    i as int
                ]));
            }
            i = i + 1;
        }
        proof {
            assert(raw_path.deep_view().take(n as int) =~= raw_path.deep_view());
        }
        Ok(PemSource::Path(path))
    }
}

/// The certificate and key configured for a server.
#[derive(Debug, PartialEq, Eq)]
pub struct TlsIdentity {
    pub cert: PemSource,
    pub key: PemSource,
}

/// Mathematical image of a `TlsIdentity`.
#[verifier::ext_equal]
pub ghost struct SpecTlsIdentity {
    pub cert: SpecPemSource,
    pub key: SpecPemSource,
}

impl View for TlsIdentity {
    type V = SpecTlsIdentity;

    open spec fn view(&self) -> SpecTlsIdentity {
        SpecTlsIdentity { cert: self.cert@, key: self.key@ }
    }
}

impl Default for TlsIdentity {
    /// Both sources start as empty paths, to be filled in by the first
    /// `ssl_certificate` / `ssl_certificate_key` directive seen.
    fn default() -> (r: Self)
        ensures
            r@ == (SpecTlsIdentity {
                cert: SpecPemSource::Path(Seq::<char>::empty()),
                key: SpecPemSource::Path(Seq::<char>::empty()),
            }),
    {
        TlsIdentity { cert: PemSource::Path(String::new()), key: PemSource::Path(String::new()) }
    }
}

/// One listening endpoint of a server.
#[derive(Debug, Clone, Copy, PartialEq, Eq, Structural)]
pub struct Listen {
    pub addr: IpAddr,
    pub port: u16,
    pub ssl: bool,
    pub default_server: bool,
}

impl Default for Listen {
    /// The unspecified address on port 80, plain, not the default server.
    fn default() -> (r: Self)
        ensures
            r == (Listen { addr: IpAddr::V4(0), port: 80, ssl: false, default_server: false }),
    {
        Listen { addr: IpAddr::V4(0), port: 80, ssl: false, default_server: false }
    }
}

/// How a location matches a request path.
#[derive(Debug, PartialEq, Eq)]
pub enum LocationMatcher {
    Prefix(String),
    Exact(String),
    Regex { case_insensitive: bool, pattern: String },
    PreferPrefix(String),
    Named(String),
}

/// Mathematical image of a `LocationMatcher`.
#[verifier::ext_equal]
pub ghost enum SpecMatcher {
    Prefix(Seq<char>),
    Exact(Seq<char>),
    Regex { case_insensitive: bool, pattern: Seq<char> },
    PreferPrefix(Seq<char>),
    Named(Seq<char>),
}

impl View for LocationMatcher {
    type V = SpecMatcher;

    open spec fn view(&self) -> SpecMatcher {
        match self {
            LocationMatcher::Prefix(p) => SpecMatcher::Prefix(p@),
            LocationMatcher::Exact(p) => SpecMatcher::Exact(p@),
            LocationMatcher::Regex { case_insensitive, pattern } => SpecMatcher::Regex {
                case_insensitive: *case_insensitive,
                pattern: pattern@,
            },
            LocationMatcher::PreferPrefix(p) => SpecMatcher::PreferPrefix(p@),
            LocationMatcher::Named(n) => SpecMatcher::Named(n@),
        }
    }
}

/// One directive inside a location. A `ProxyPass` holds the upstream URL in
/// its serialized, normalized form.
#[derive(Debug, PartialEq, Eq)]
pub enum LocationDirective {
    ProxyPass(String),
    Root(String),
    TryFiles(String),
}

/// Mathematical image of a `LocationDirective`.
#[verifier::ext_equal]
pub ghost enum SpecLocationDirective {
    ProxyPass(Seq<char>),
    Root(Seq<char>),
    TryFiles(Seq<char>),
}

impl View for LocationDirective {
    type V = SpecLocationDirective;

    open spec fn view(&self) -> SpecLocationDirective {
        match self {
            LocationDirective::ProxyPass(u) => SpecLocationDirective::ProxyPass(u@),
            LocationDirective::Root(p) => SpecLocationDirective::Root(p@),
            LocationDirective::TryFiles(t) => SpecLocationDirective::TryFiles(t@),
        }
    }
}

/// A path-matching rule and the directives attached to it.
#[derive(Debug, PartialEq, Eq)]
pub struct Location {
    pub matcher: LocationMatcher,
    pub directives: Vec<LocationDirective>,
}

/// Mathematical image of a `Location`.
#[verifier::ext_equal]
pub ghost struct SpecLocation {
    pub matcher: SpecMatcher,
    pub directives: Seq<SpecLocationDirective>,
}

impl View for Location {
    type V = SpecLocation;

    open spec fn view(&self) -> SpecLocation {
        SpecLocation {
            matcher: self.matcher@,
            directives: Seq::new(
                self.directives@.len(),
                |i: int| self.directives@[i]@,
            ),
        }
    }
}

/// One virtual host: its names, listening endpoints, locations and TLS
/// material.
#[derive(Debug, PartialEq, Eq)]
pub struct Server {
    pub server_names: Vec<String>,
    pub locations: Vec<Location>,
    pub listens: Vec<Listen>,
    pub tls: Option<TlsIdentity>,
}

/// Mathematical image of a `Server`.
#[verifier::ext_equal]
pub ghost struct SpecServer {
    pub server_names: Seq<Seq<char>>,
    pub locations: Seq<SpecLocation>,
    pub listens: Seq<Listen>,
    pub tls: Option<SpecTlsIdentity>,
}

impl View for Server {
    type V = SpecServer;

    open spec fn view(&self) -> SpecServer {
        SpecServer {
            server_names: self.server_names.deep_view(),
            locations: Seq::new(self.locations@.len(), |i: int| self.locations@[i]@),
            listens: self.listens@,
            tls: match self.tls {
                Some(t) => Some(t@),
                None => None,
            },
        }
    }
}

impl Default for Server {
    /// A server with nothing configured yet.
    fn default() -> (r: Self)
        ensures
            r@ == (SpecServer {
                server_names: Seq::<Seq<char>>::empty(),
                locations: Seq::<SpecLocation>::empty(),
                listens: Seq::<Listen>::empty(),
                tls: None,
            }),
    {
        let r = Server {
            server_names: Vec::new(),
            locations: Vec::new(),
            listens: Vec::new(),
            tls: None,
        };
        proof {
            assert(r@ =~~= (SpecServer {
                server_names: Seq::<Seq<char>>::empty(),
                locations: Seq::<SpecLocation>::empty(),
                listens: Seq::<Listen>::empty(),
                tls: None,
            }));
        }
        r
    }
}

/// The `http` scope: its servers and its scope-wide settings.
#[derive(Debug, PartialEq, Eq)]
pub struct Http {
    pub servers: Vec<Server>,
    pub keepalive_timeout: String,
    pub tcp_nodelay: Switch,
}

/// Mathematical image of an `Http`.
#[verifier::ext_equal]
pub ghost struct SpecHttp {
    pub servers: Seq<SpecServer>,
    pub keepalive_timeout: Seq<char>,
    pub tcp_nodelay: Switch,
}

impl View for Http {
    type V = SpecHttp;

    open spec fn view(&self) -> SpecHttp {
        SpecHttp {
            servers: Seq::new(self.servers@.len(), |i: int| self.servers@[i]@),
            keepalive_timeout: self.keepalive_timeout@,
            tcp_nodelay: self.tcp_nodelay,
        }
    }
}

impl Default for Http {
    /// No servers, a keep-alive timeout of "60s", and `tcp_nodelay` on.
    fn default() -> (r: Self)
        ensures
            r@ == (SpecHttp {
                servers: Seq::<SpecServer>::empty(),
                keepalive_timeout: "60s"@,
                tcp_nodelay: Switch::On,
            }),
    {
        let r = Http {
            servers: Vec::new(),
            keepalive_timeout: "60s".to_owned(),
            tcp_nodelay: Switch::On,
        };
        proof {
            assert(r@ =~~= (SpecHttp {
                servers: Seq::<SpecServer>::empty(),
                keepalive_timeout: "60s"@,
                tcp_nodelay: Switch::On,
            }));
        }
        r
    }
}

/// The root of the IR: the `http` scope, when one was configured.
#[derive(Debug, PartialEq, Eq)]
pub struct Ir {
    pub http: Option<Http>,
}

/// Mathematical image of an `Ir`.
#[verifier::ext_equal]
pub ghost struct SpecIr {
    pub http: Option<SpecHttp>,
}

impl View for Ir {
    type V = SpecIr;

    open spec fn view(&self) -> SpecIr {
        SpecIr {
            http: match self.http {
                Some(h) => Some(h@),
                None => None,
            },
        }
    }
}

impl Default for Ir {
    /// No proxy configuration present.
    fn default() -> (r: Self)
        ensures
            r@ == (SpecIr { http: None }),
    {
        Ir { http: None }
    }
}

} // verus!

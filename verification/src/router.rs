//! Router compiler: turns the IR's `Http` root into a listener-indexed
//! routing table. Each server's locations are compiled once (locations
//! without a `proxy_pass` target are dropped), then registered under every
//! one of the server's listening endpoints, keyed by lower-cased server
//! name, with an optional per-listener default.

use vstd::prelude::*;

use crate::ir::{Http, Listen, Location, LocationDirective, LocationMatcher, Server, SpecHttp,
    SpecLocation, SpecLocationDirective, SpecMatcher, SpecServer, IpAddr};
use crate::text::lower_chars;
use crate::text::str_eq;

verus! {

/// One physical listening endpoint: address, port, and whether TLS is on.
#[derive(Debug, Clone, Copy, Eq, PartialEq, Hash, Structural)]
pub struct ListenKey {
    pub addr: IpAddr,
    pub port: u16,
    pub ssl: bool,
}

/// The key of a `Listen` entry.
pub open spec fn key_of_listen(l: Listen) -> ListenKey {
    ListenKey { addr: l.addr, port: l.port, ssl: l.ssl }
}

impl ListenKey {
    /// Projects a `Listen` onto its endpoint key.
    pub fn from_listen(value: &Listen) -> (r: Self)
        ensures
            r == key_of_listen(*value),
    {
        ListenKey { addr: value.addr, port: value.port, ssl: value.ssl }
    }
}

/// Where a matched request is sent.
#[derive(Debug, PartialEq, Eq)]
pub enum RouteTarget {
    ProxyPass { upstream: String },
}

/// Mathematical image of a `RouteTarget`.
#[verifier::ext_equal]
pub ghost enum SpecRouteTarget {
    ProxyPass(Seq<char>),
}

impl View for RouteTarget {
    type V = SpecRouteTarget;

    open spec fn view(&self) -> SpecRouteTarget {
        match self {
            RouteTarget::ProxyPass { upstream } => SpecRouteTarget::ProxyPass(upstream@),
        }
    }
}

/// The matcher of a compiled location; structurally identical to
/// `LocationMatcher`, and sharing its mathematical image.
#[derive(Debug, PartialEq, Eq)]
pub enum CompiledMatcher {
    Prefix(String),
    Exact(String),
    Regex { case_insensitive: bool, pattern: String },
    PreferPrefix(String),
    Named(String),
}

impl View for CompiledMatcher {
    type V = SpecMatcher;

    open spec fn view(&self) -> SpecMatcher {
        match self {
            CompiledMatcher::Prefix(p) => SpecMatcher::Prefix(p@),
            CompiledMatcher::Exact(p) => SpecMatcher::Exact(p@),
            CompiledMatcher::Regex { case_insensitive, pattern } => SpecMatcher::Regex {
                case_insensitive: *case_insensitive,
                pattern: pattern@,
            },
            CompiledMatcher::PreferPrefix(p) => SpecMatcher::PreferPrefix(p@),
            CompiledMatcher::Named(n) => SpecMatcher::Named(n@),
        }
    }
}

impl CompiledMatcher {
    /// Copies an IR matcher into its compiled form.
    pub fn from_matcher(value: &LocationMatcher) -> (r: Self)
        ensures
            r@ == value@,
    {
        match value {
            LocationMatcher::Prefix(path) => CompiledMatcher::Prefix(path.clone()),
            LocationMatcher::Exact(path) => CompiledMatcher::Exact(path.clone()),
            LocationMatcher::Regex { case_insensitive, pattern } => CompiledMatcher::Regex {
                case_insensitive: *case_insensitive,
                pattern: pattern.clone(),
            },
            LocationMatcher::PreferPrefix(path) => CompiledMatcher::PreferPrefix(path.clone()),
            LocationMatcher::Named(name) => CompiledMatcher::Named(name.clone()),
        }
    }
}

/// One compiled location: its matcher and its routing target.
#[derive(Debug, PartialEq, Eq)]
pub struct CompiledLocation {
    pub matcher: CompiledMatcher,
    pub target: RouteTarget,
}

/// Mathematical image of a `CompiledLocation`.
#[verifier::ext_equal]
pub ghost struct SpecCompiledLocation {
    pub matcher: SpecMatcher,
    pub target: SpecRouteTarget,
}

impl View for CompiledLocation {
    type V = SpecCompiledLocation;

    open spec fn view(&self) -> SpecCompiledLocation {
        SpecCompiledLocation { matcher: self.matcher@, target: self.target@ }
    }
}

/// The views of a compiled-location sequence.
pub open spec fn clocs_view(s: Seq<CompiledLocation>) -> Seq<SpecCompiledLocation> {
    Seq::new(s.len(), |i: int| s[i]@)
}

/// The ordered location list of one virtual host.
#[derive(Debug, PartialEq, Eq)]
pub struct ServerRoutes {
    pub locations: Vec<CompiledLocation>,
}

/// Mathematical image of a `ServerRoutes`.
#[verifier::ext_equal]
pub ghost struct SpecServerRoutes {
    pub locations: Seq<SpecCompiledLocation>,
}

impl View for ServerRoutes {
    type V = SpecServerRoutes;

    open spec fn view(&self) -> SpecServerRoutes {
        SpecServerRoutes { locations: clocs_view(self.locations@) }
    }
}

/// The virtual hosts reachable at one listener: a name-indexed table and an
/// optional default. The table is a journal of registrations; the youngest
/// entry for a name is the one in force.
#[derive(Debug, PartialEq, Eq)]
pub struct VirtualHostRoutes {
    pub named: Vec<(String, ServerRoutes)>,
    pub default: Option<ServerRoutes>,
}

/// Mathematical image of a `VirtualHostRoutes`.
#[verifier::ext_equal]
pub ghost struct SpecVirtualHostRoutes {
    pub named: Map<Seq<char>, SpecServerRoutes>,
    pub default: Option<SpecServerRoutes>,
}

/// The mapping encoded by a registration journal: later entries shadow
/// earlier ones with the same name.
pub open spec fn named_map(s: Seq<(String, ServerRoutes)>) -> Map<Seq<char>, SpecServerRoutes>
    decreases s.len(),
{
    if s.len() == 0 {
        Map::<Seq<char>, SpecServerRoutes>::empty()
    } else {
        named_map(s.drop_last()).insert(s.last().0@, s.last().1@)
    }
}

impl View for VirtualHostRoutes {
    type V = SpecVirtualHostRoutes;

    open spec fn view(&self) -> SpecVirtualHostRoutes {
        SpecVirtualHostRoutes {
            named: named_map(self.named@),
            default: match self.default {
                Some(ref d) => Some(d@),
                None => None,
            },
        }
    }
}

/// The compiled routing table: virtual-host tables indexed by listening
/// endpoint. The entry list is a journal; the youngest entry for a key is
/// the one in force.
#[derive(Debug, PartialEq, Eq)]
pub struct CompiledRouter {
    pub listeners: Vec<(ListenKey, VirtualHostRoutes)>,
}

/// The mapping encoded by the listener journal.
pub open spec fn listeners_map(s: Seq<(ListenKey, VirtualHostRoutes)>) -> Map<
    ListenKey,
    SpecVirtualHostRoutes,
>
    decreases s.len(),
{
    if s.len() == 0 {
        Map::<ListenKey, SpecVirtualHostRoutes>::empty()
    } else {
        listeners_map(s.drop_last()).insert(s.last().0, s.last().1@)
    }
}

impl View for CompiledRouter {
    type V = Map<ListenKey, SpecVirtualHostRoutes>;

    open spec fn view(&self) -> Map<ListenKey, SpecVirtualHostRoutes> {
        listeners_map(self.listeners@)
    }
}

/// The first `proxy_pass` target among a location's directives.
pub open spec fn first_proxy_pass(ds: Seq<SpecLocationDirective>) -> Option<Seq<char>>
    decreases ds.len(),
{
    if ds.len() == 0 {
        None
    } else {
        match ds[0] {
            SpecLocationDirective::ProxyPass(u) => Some(u),
            _ => first_proxy_pass(ds.drop_first()),
        }
    }
}

/// The compiled form of one location, when it has a routing target.
pub open spec fn spec_compile_location(loc: SpecLocation) -> Option<SpecCompiledLocation> {
    match first_proxy_pass(loc.directives) {
        Some(u) => Some(
            SpecCompiledLocation { matcher: loc.matcher, target: SpecRouteTarget::ProxyPass(u) },
        ),
        None => None,
    }
}

/// The compiled location list: targetless locations are dropped, order is
/// kept.
pub open spec fn spec_compile_locations(locs: Seq<SpecLocation>) -> Seq<SpecCompiledLocation>
    decreases locs.len(),
{
    if locs.len() == 0 {
        Seq::<SpecCompiledLocation>::empty()
    } else {
        (match spec_compile_location(locs[0]) {
            Some(c) => seq![c],
            None => Seq::<SpecCompiledLocation>::empty(),
        }) + spec_compile_locations(locs.drop_first())
    }
}

/// The empty virtual-host table.
pub open spec fn empty_vhr() -> SpecVirtualHostRoutes {
    SpecVirtualHostRoutes { named: Map::<Seq<char>, SpecServerRoutes>::empty(), default: None }
}

/// The table at `k`, or an empty one if the key is new.
pub open spec fn vhr_at(m: Map<ListenKey, SpecVirtualHostRoutes>, k: ListenKey) -> SpecVirtualHostRoutes {
    if m.contains_key(k) {
        m[k]
    } else {
        empty_vhr()
    }
}

/// Registers `routes` under the lower-cased form of every name.
pub open spec fn register_names(
    named: Map<Seq<char>, SpecServerRoutes>,
    names: Seq<Seq<char>>,
    routes: SpecServerRoutes,
) -> Map<Seq<char>, SpecServerRoutes>
    decreases names.len(),
{
    if names.len() == 0 {
        named
    } else {
        register_names(named.insert(lower_chars(names[0]), routes), names.drop_first(), routes)
    }
}

/// One `Listen` entry of a server applied to the table: the server's names
/// are registered at that key, and the default slot is claimed when the
/// entry asks for it, or when the server is nameless and the slot is free.
pub open spec fn spec_add_listen(
    m: Map<ListenKey, SpecVirtualHostRoutes>,
    server: SpecServer,
    routes: SpecServerRoutes,
    l: Listen,
) -> Map<ListenKey, SpecVirtualHostRoutes> {
    let k = key_of_listen(l);
    let vhr = vhr_at(m, k);
    let named2 = register_names(vhr.named, server.server_names, routes);
    let default2 = if l.default_server || (server.server_names.len() == 0 && vhr.default is None) {
        Some(routes)
    } else {
        vhr.default
    };
    m.insert(k, SpecVirtualHostRoutes { named: named2, default: default2 })
}

/// A server's `Listen` entries applied in order.
pub open spec fn spec_add_listens(
    m: Map<ListenKey, SpecVirtualHostRoutes>,
    server: SpecServer,
    routes: SpecServerRoutes,
    listens: Seq<Listen>,
) -> Map<ListenKey, SpecVirtualHostRoutes>
    decreases listens.len(),
{
    if listens.len() == 0 {
        m
    } else {
        spec_add_listens(
            spec_add_listen(m, server, routes, listens[0]),
            server,
            routes,
            listens.drop_first(),
        )
    }
}

/// One whole server added to the table.
pub open spec fn spec_add_server(
    m: Map<ListenKey, SpecVirtualHostRoutes>,
    server: SpecServer,
) -> Map<ListenKey, SpecVirtualHostRoutes> {
    let routes = SpecServerRoutes { locations: spec_compile_locations(server.locations) };
    spec_add_listens(m, server, routes, server.listens)
}

/// The servers of an `http` scope added in order, starting from an empty
/// table.
pub open spec fn spec_add_servers(
    m: Map<ListenKey, SpecVirtualHostRoutes>,
    servers: Seq<SpecServer>,
) -> Map<ListenKey, SpecVirtualHostRoutes>
    decreases servers.len(),
{
    if servers.len() == 0 {
        m
    } else {
        spec_add_servers(spec_add_server(m, servers[0]), servers.drop_first())
    }
}

/// The routing table compiled from an `http` scope.
pub open spec fn spec_from_http(h: SpecHttp) -> Map<ListenKey, SpecVirtualHostRoutes> {
    spec_add_servers(Map::<ListenKey, SpecVirtualHostRoutes>::empty(), h.servers)
}

fn clone_route_target(t: &RouteTarget) -> (r: RouteTarget)
    ensures
        r@ == t@,
{
    match t {
        RouteTarget::ProxyPass { upstream } => RouteTarget::ProxyPass {
            upstream: upstream.clone(),
        },
    }
}

fn clone_compiled_matcher(m: &CompiledMatcher) -> (r: CompiledMatcher)
    ensures
        r@ == m@,
{
    match m {
        CompiledMatcher::Prefix(p) => CompiledMatcher::Prefix(p.clone()),
        CompiledMatcher::Exact(p) => CompiledMatcher::Exact(p.clone()),
        CompiledMatcher::Regex { case_insensitive, pattern } => CompiledMatcher::Regex {
            case_insensitive: *case_insensitive,
            pattern: pattern.clone(),
        },
        CompiledMatcher::PreferPrefix(p) => CompiledMatcher::PreferPrefix(p.clone()),
        CompiledMatcher::Named(n) => CompiledMatcher::Named(n.clone()),
    }
}

/// Deep copy of a compiled location.
pub fn clone_compiled_location(l: &CompiledLocation) -> (r: CompiledLocation)
    ensures
        r@ == l@,
{
    let r = CompiledLocation {
        matcher: clone_compiled_matcher(&l.matcher),
        target: clone_route_target(&l.target),
    };
    proof {
        assert(r@ =~~= l@);
    }
    r
}

/// Deep copy of a route list.
fn clone_server_routes(s: &ServerRoutes) -> (r: ServerRoutes)
    ensures
        r@ == s@,
{
    let n = s.locations.len();
    let mut locations: Vec<CompiledLocation> = Vec::new();
    let mut i: usize = 0;
    proof {
        assert(clocs_view(locations@) =~= clocs_view(s.locations@).take(0));
    }
    while i < n
        invariant
            n == s.locations@.len(),
            i <= n,
            clocs_view(locations@) =~~= clocs_view(s.locations@).take(i as int),
        decreases n - i,
    {
        let c = clone_compiled_location(&s.locations[i]);
        let ghost pre = clocs_view(locations@);
        locations.push(c);
        proof {
            assert(clocs_view(locations@) =~~= pre.push(c@));
        }
        i = i + 1;
    }
    proof {
        assert(clocs_view(s.locations@).take(n as int) =~= clocs_view(s.locations@));
        assert((ServerRoutes { locations })@ =~~= s@);
    }
    ServerRoutes { locations }
}

/// Deep copy of a virtual-host table.
#[verifier::loop_isolation(false)]
fn clone_vhr(v: &VirtualHostRoutes) -> (r: VirtualHostRoutes)
    ensures
        r@ == v@,
{
    let n = v.named.len();
    let mut named: Vec<(String, ServerRoutes)> = Vec::new();
    let mut i: usize = 0;
    proof {
        assert(named@ =~= v.named@.take(0));
    }
    while i < n
        invariant
            n == v.named@.len(),
            i <= n,
            named@.len() == i,
            named_map(named@) =~~= named_map(v.named@.take(i as int)),
            forall|k: int| 0 <= k < i ==> (#[trigger] named@[k]).0@ == v.named@[k].0@
                && named@[k].1@ == v.named@[k].1@,
        decreases n - i,
    {
        let pair = &v.named[i];
        let copy = (pair.0.clone(), clone_server_routes(&pair.1));
        let ghost pre = named@;
        named.push(copy);
        proof {
            assert(named@.drop_last() =~= pre);
            assert(v.named@.take(i + 1).drop_last() =~= v.named@.take(i as int));
            assert(named_map(named@) =~~= named_map(v.named@.take(i + 1)));
        }
        i = i + 1;
    }
    let default = match &v.default {
        Some(d) => Some(clone_server_routes(d)),
        None => None,
    };
    let r = VirtualHostRoutes { named, default };
    proof {
        assert(v.named@.take(n as int) =~= v.named@);
        assert(r@ =~~= v@);
    }
    r
}

/// Compiles a location list, dropping locations without a recognized
/// routing target.
#[verifier::loop_isolation(false)]
pub fn compile_locations(locations: &[Location]) -> (r: Vec<CompiledLocation>)
    ensures
        clocs_view(r@) == spec_compile_locations(
            Seq::new(locations@.len(), |i: int| locations@[i]@),
        ),
{
    let ghost lv = Seq::new(locations@.len(), |i: int| locations@[i]@);
    let n = locations.len();
    let mut out: Vec<CompiledLocation> = Vec::new();
    let mut i: usize = 0;
    proof {
        assert(lv.skip(0) =~= lv);
        assert(clocs_view(out@) =~= Seq::<SpecCompiledLocation>::empty());
        assert(Seq::<SpecCompiledLocation>::empty() + spec_compile_locations(lv) =~=
            spec_compile_locations(lv));
    }
    while i < n
        invariant
            i <= n,
            clocs_view(out@) + spec_compile_locations(lv.skip(i as int)) =~~=
                spec_compile_locations(lv),
        decreases n - i,
    {
        let location = vstd::slice::slice_index_get(locations, i);
        proof {
            assert(lv.skip(i as int)[0] == lv[i as int]);
            assert(lv.skip(i as int).drop_first() =~= lv.skip(i + 1));
        }
        let mut target: Option<RouteTarget> = None;
        let m = location.directives.len();
        let mut j: usize = 0;
        proof {
            assert(location@.directives.skip(0) =~= location@.directives);
        }
        while j < m
            invariant
                m == location.directives@.len(),
                j <= m,
                location@.directives.len() == m,
                target is None,
                first_proxy_pass(location@.directives) == first_proxy_pass(
                    location@.directives.skip(j as int),
                ),
            decreases m - j,
        {
            let d = &location.directives[j];
            proof {
                assert(location@.directives[j as int] == location.directives@[j as int]@);
                assert(location@.directives.skip(j as int)[0] == location@.directives[j as int]);
                assert(location@.directives.skip(j as int).drop_first() =~=
                    location@.directives.skip(j + 1));
            }
            match d {
                LocationDirective::ProxyPass(url) => {
                    target = Some(RouteTarget::ProxyPass { upstream: url.clone() });
                    break ;
                },
                _ => {},
            }
            j = j + 1;
        }
        match target {
            Some(t) => {
                proof {
                    assert(first_proxy_pass(location@.directives) matches Some(u) && t@
                        == SpecRouteTarget::ProxyPass(u));
                }
                let compiled = CompiledLocation {
                    matcher: CompiledMatcher::from_matcher(&location.matcher),
                    target: t,
                };
                let ghost pre = clocs_view(out@);
                out.push(compiled);
                proof {
                    assert(clocs_view(out@) =~~= pre.push(compiled@));
                    assert(pre.push(compiled@) =~= pre + seq![compiled@]);
                    assert((pre + seq![compiled@]) + spec_compile_locations(lv.skip(i + 1)) =~= pre
                        + (seq![compiled@] + spec_compile_locations(lv.skip(i + 1))));
                }
            },
            None => {
                proof {
                    assert(first_proxy_pass(location@.directives) is None);
                    assert(Seq::<SpecCompiledLocation>::empty() + spec_compile_locations(
                        lv.skip(i + 1),
                    ) =~= spec_compile_locations(lv.skip(i + 1)));
                }
            },
        }
        i = i + 1;
    }
    proof {
        assert(lv.skip(n as int).len() == 0);
        assert(clocs_view(out@) + Seq::<SpecCompiledLocation>::empty() =~= clocs_view(out@));
    }
    out
}

/// The youngest journal entry for `key`, when there is one.
#[verifier::loop_isolation(false)]
pub fn find_listener<'a>(entries: &'a Vec<(ListenKey, VirtualHostRoutes)>, key: &ListenKey) -> (r:
    Option<&'a VirtualHostRoutes>)
    ensures
        match r {
            Some(v) => listeners_map(entries@).contains_key(*key) && listeners_map(entries@)[*key]
                == v@,
            None => !listeners_map(entries@).contains_key(*key),
        },
{
    let n = entries.len();
    let mut i: usize = n;
    proof {
        assert(entries@.take(n as int) =~= entries@);
    }
    while i > 0
        invariant
            i <= n,
            listeners_map(entries@).contains_key(*key) == listeners_map(
                entries@.take(i as int),
            ).contains_key(*key),
            listeners_map(entries@).contains_key(*key) ==> listeners_map(entries@)[*key]
                == listeners_map(entries@.take(i as int))[*key],
        decreases i,
    {
        let pair = &entries[i - 1];
        proof {
            assert(entries@.take(i as int).last() == entries@[i - 1]);
            assert(entries@.take(i as int).drop_last() =~= entries@.take(i - 1));
        }
        if pair.0 == *key {
            return Some(&pair.1);
        }
        i = i - 1;
    }
    None
}

/// The youngest route list registered under `name`, when there is one.
#[verifier::loop_isolation(false)]
pub fn find_named<'a>(entries: &'a Vec<(String, ServerRoutes)>, name: &str) -> (r: Option<
    &'a ServerRoutes,
>)
    ensures
        match r {
            Some(v) => named_map(entries@).contains_key(name@) && named_map(entries@)[name@]
                == v@,
            None => !named_map(entries@).contains_key(name@),
        },
{
    let n = entries.len();
    let mut i: usize = n;
    proof {
        assert(entries@.take(n as int) =~= entries@);
    }
    while i > 0
        invariant
            i <= n,
            named_map(entries@).contains_key(name@) == named_map(
                entries@.take(i as int),
            ).contains_key(name@),
            named_map(entries@).contains_key(name@) ==> named_map(entries@)[name@] == named_map(
                entries@.take(i as int),
            )[name@],
        decreases i,
    {
        let pair = &entries[i - 1];
        proof {
            assert(entries@.take(i as int).last() == entries@[i - 1]);
            assert(entries@.take(i as int).drop_last() =~= entries@.take(i - 1));
        }
        if str_eq(pair.0.as_str(), name) {
            return Some(&pair.1);
        }
        i = i - 1;
    }
    None
}

impl CompiledRouter {
    /// Adds one server: compiles its locations, then registers them at every
    /// one of its listening endpoints.
    #[verifier::loop_isolation(false)]
    fn add_server(&mut self, server: &Server)
        ensures
            final(self)@ == spec_add_server(old(self)@, server@),
    {
        let routes = ServerRoutes { locations: compile_locations(server.locations.as_slice()) };
        proof {
            assert(routes@ =~~= (SpecServerRoutes {
                locations: spec_compile_locations(server@.locations),
            }));
        }
        let ghost srv = server@;
        let ghost routes_v = routes@;
        let n = server.listens.len();
        let mut i: usize = 0;
        proof {
            assert(srv.listens.skip(0) =~= srv.listens);
        }
        while i < n
            invariant
                i <= n,
                spec_add_listens(self@, srv, routes_v, srv.listens.skip(i as int))
                    == spec_add_listens(old(self)@, srv, routes_v, srv.listens),
            decreases n - i,
        {
            let listen = &server.listens[i];
            proof {
                assert(srv.listens.skip(i as int)[0] == srv.listens[i as int]);
                assert(srv.listens.skip(i as int).drop_first() =~= srv.listens.skip(i + 1));
                assert(srv.listens[i as int] == server.listens@[i as int]);
            }
            let key = ListenKey::from_listen(listen);
            let mut vhr = match find_listener(&self.listeners, &key) {
                Some(v) => clone_vhr(v),
                None => {
                    let v = VirtualHostRoutes { named: Vec::new(), default: None };
                    proof {
                        assert(v@ =~~= empty_vhr());
                    }
                    v
                },
            };
            proof {
                assert(vhr@ == vhr_at(self@, key));
            }
            let ghost vhr0 = vhr@;
            let m = server.server_names.len();
            let mut j: usize = 0;
            proof {
                assert(srv.server_names.skip(0) =~= srv.server_names);
            }
            while j < m
                invariant
                    j <= m,
                    vhr@.default == vhr0.default,
                    register_names(vhr@.named, srv.server_names.skip(j as int), routes_v)
                        == register_names(vhr0.named, srv.server_names, routes_v),
                decreases m - j,
            {
                let name = &server.server_names[j];
                proof {
                    assert(srv.server_names.skip(j as int)[0] == srv.server_names[j as int]);
                    assert(srv.server_names.skip(j as int).drop_first() =~= srv.server_names.skip(
                        j + 1,
                    ));
                    assert(srv.server_names[j as int] == server.server_names@[j as int]@);
                }
                let lowered = crate::text::ascii_lowercase(name.as_str());
                let entry = (lowered, clone_server_routes(&routes));
                let ghost pre_named = vhr@.named;
                let ghost pre_vec = vhr.named@;
                vhr.named.push(entry);
                proof {
                    assert(vhr.named@.drop_last() =~= pre_vec);
                    assert(vhr.named@.last() == entry);
                    assert(named_map(vhr.named@) =~~= pre_named.insert(
                        lower_chars(srv.server_names[j as int]),
                        routes_v,
                    ));
                }
                j = j + 1;
            }
            proof {
                assert(srv.server_names.skip(m as int).len() == 0);
                assert(vhr@.named == register_names(vhr0.named, srv.server_names, routes_v));
            }
            let claim_default = listen.default_server || (server.server_names.len() == 0
                && vhr.default.is_none());
            if claim_default {
                vhr.default = Some(clone_server_routes(&routes));
            }
            let ghost vhr_final = vhr@;
            let ghost pre_map = self@;
            let ghost pre_list = self.listeners@;
            self.listeners.push((key, vhr));
            proof {
                assert(self.listeners@.drop_last() =~= pre_list);
                assert(self.listeners@.last().0 == key);
                assert(self.listeners@.last().1@ == vhr_final);
                assert(self@ =~~= spec_add_listen(pre_map, srv, routes_v, srv.listens[i as int]));
            }
            i = i + 1;
        }
        proof {
            assert(srv.listens.skip(n as int).len() == 0);
        }
    }

    /// Compiles a whole `http` scope into a routing table.
    #[verifier::loop_isolation(false)]
    pub fn from_http(http: &Http) -> (r: Self)
        ensures
            r@ == spec_from_http(http@),
    {
        let mut router = CompiledRouter { listeners: Vec::new() };
        proof {
            assert(router@ =~= Map::<ListenKey, SpecVirtualHostRoutes>::empty());
        }
        let ghost hv = http@;
        let n = http.servers.len();
        let mut i: usize = 0;
        proof {
            assert(hv.servers.skip(0) =~= hv.servers);
        }
        while i < n
            invariant
                i <= n,
                spec_add_servers(router@, hv.servers.skip(i as int)) == spec_add_servers(
                    Map::<ListenKey, SpecVirtualHostRoutes>::empty(),
                    hv.servers,
                ),
            decreases n - i,
        {
            let server = &http.servers[i];
            proof {
                assert(hv.servers.skip(i as int)[0] == hv.servers[i as int]);
                assert(hv.servers.skip(i as int).drop_first() =~= hv.servers.skip(i + 1));
                assert(hv.servers[i as int] == http.servers@[i as int]@);
            }
            router.add_server(server);
            i = i + 1;
        }
        proof {
            assert(hv.servers.skip(n as int).len() == 0);
        }
        router
    }
}


/// What registration does to the table at one key: a key that is the
/// lower-cased form of some registered name maps to the given routes;
/// every other key is untouched.
pub proof fn lemma_register_names_at(
    named: Map<Seq<char>, SpecServerRoutes>,
    names: Seq<Seq<char>>,
    routes: SpecServerRoutes,
    k: Seq<char>,
)
    ensures
        (exists|i: int| 0 <= i < names.len() && #[trigger] lower_chars(names[i]) == k)
            ==> register_names(named, names, routes).contains_key(k) && register_names(
            named,
            names,
            routes,
        )[k] == routes,
        !(exists|i: int| 0 <= i < names.len() && #[trigger] lower_chars(names[i]) == k) ==> (
        register_names(named, names, routes).contains_key(k) == named.contains_key(k) && (
        named.contains_key(k) ==> register_names(named, names, routes)[k] == named[k])),
    decreases names.len(),
{
    if names.len() > 0 {
        let named2 = named.insert(lower_chars(names[0]), routes);
        lemma_register_names_at(named2, names.drop_first(), routes, k);
        assert(register_names(named, names, routes) == register_names(
            named2,
            names.drop_first(),
            routes,
        ));
        if exists|j: int|
            0 <= j < names.drop_first().len() && #[trigger] lower_chars(names.drop_first()[j])
                == k {
            let j = choose|j: int|
                0 <= j < names.drop_first().len() && #[trigger] lower_chars(
                    names.drop_first()[j],
                ) == k;
            assert(names.drop_first()[j] == names[j + 1]);
            assert(lower_chars(names[j + 1]) == k);
        } else {
            if lower_chars(names[0]) == k {
                assert(named2.contains_key(k) && named2[k] == routes);
            } else {
                if exists|i: int|
                    0 <= i < names.len() && #[trigger] lower_chars(names[i]) == k {
                    let i = choose|i: int|
                        0 <= i < names.len() && #[trigger] lower_chars(names[i]) == k;
                    assert(i > 0);
                    assert(names.drop_first()[i - 1] == names[i]);
                    assert(lower_chars(names.drop_first()[i - 1]) == k);
                    assert(false);
                }
            }
        }
    }
}

/// Virtual-host resolution: when two servers each carry one `Listen` entry
/// for the same endpoint key, and their lower-cased name sets are disjoint,
/// both become reachable under that one listener, each name resolving to its
/// own server's compiled routes; a host that matches no registered name has
/// no named entry, so a request for it falls back to the listener's default,
/// or to no route when none was set.
pub proof fn lemma_virtual_hosts_share_listener(
    http: SpecHttp,
    s1: SpecServer,
    s2: SpecServer,
    l1: Listen,
    l2: Listen,
    k: ListenKey,
)
    requires
        http.servers == seq![s1, s2],
        s1.listens == seq![l1],
        s2.listens == seq![l2],
        key_of_listen(l1) == k,
        key_of_listen(l2) == k,
        forall|a: int, b: int|
            0 <= a < s1.server_names.len() && 0 <= b < s2.server_names.len()
                ==> #[trigger] lower_chars(s1.server_names[a]) != #[trigger] lower_chars(
                s2.server_names[b],
            ),
    ensures
        spec_from_http(http).contains_key(k),
        forall|a: int| 0 <= a < s1.server_names.len() ==> spec_from_http(http)[k].named.contains_key(
            #[trigger] lower_chars(s1.server_names[a]),
        ) && spec_from_http(http)[k].named[lower_chars(s1.server_names[a])] == (SpecServerRoutes {
            locations: spec_compile_locations(s1.locations),
        }),
        forall|b: int| 0 <= b < s2.server_names.len() ==> spec_from_http(http)[k].named.contains_key(
            #[trigger] lower_chars(s2.server_names[b]),
        ) && spec_from_http(http)[k].named[lower_chars(s2.server_names[b])] == (SpecServerRoutes {
            locations: spec_compile_locations(s2.locations),
        }),
        forall|h: Seq<char>|
            !(exists|a: int| 0 <= a < s1.server_names.len() && #[trigger] lower_chars(
                s1.server_names[a],
            ) == h) && !(exists|b: int| 0 <= b < s2.server_names.len() && #[trigger] lower_chars(
                s2.server_names[b],
            ) == h) ==> !(#[trigger] spec_from_http(http)[k].named.contains_key(h)),
{
    let empty = Map::<ListenKey, SpecVirtualHostRoutes>::empty();
    let r1 = SpecServerRoutes { locations: spec_compile_locations(s1.locations) };
    let r2 = SpecServerRoutes { locations: spec_compile_locations(s2.locations) };
    assert(http.servers[0] == s1);
    assert(http.servers.drop_first() =~= seq![s2]);
    assert(seq![s2][0] == s2);
    assert(seq![s2].drop_first() =~= Seq::<SpecServer>::empty());
    let m1 = spec_add_server(empty, s1);
    let m2 = spec_add_server(m1, s2);
    assert(spec_add_servers(empty, http.servers) == spec_add_servers(
        m1,
        http.servers.drop_first(),
    ));
    assert(spec_add_servers(m1, seq![s2]) == spec_add_servers(m2, seq![s2].drop_first()));
    assert(spec_add_servers(m2, Seq::<SpecServer>::empty()) == m2);
    assert(spec_from_http(http) == m2);
    assert(s1.listens[0] == l1);
    assert(s1.listens.drop_first() =~= Seq::<Listen>::empty());
    assert(s2.listens[0] == l2);
    assert(s2.listens.drop_first() =~= Seq::<Listen>::empty());
    assert(spec_add_listens(empty, s1, r1, s1.listens) == spec_add_listens(
        spec_add_listen(empty, s1, r1, l1),
        s1,
        r1,
        s1.listens.drop_first(),
    ));
    assert(m1 == spec_add_listen(empty, s1, r1, l1));
    assert(spec_add_listens(m1, s2, r2, s2.listens) == spec_add_listens(
        spec_add_listen(m1, s2, r2, l2),
        s2,
        r2,
        s2.listens.drop_first(),
    ));
    assert(m2 == spec_add_listen(m1, s2, r2, l2));
    let vhr1 = m1[k];
    assert(vhr1.named == register_names(empty_vhr().named, s1.server_names, r1));
    assert(m2.contains_key(k));
    assert(m2[k].named == register_names(vhr1.named, s2.server_names, r2));
    assert forall|a: int| 0 <= a < s1.server_names.len() implies m2[k].named.contains_key(
        #[trigger] lower_chars(s1.server_names[a]),
    ) && m2[k].named[lower_chars(s1.server_names[a])] == r1 by {
        let key = lower_chars(s1.server_names[a]);
        lemma_register_names_at(empty_vhr().named, s1.server_names, r1, key);
        assert(vhr1.named.contains_key(key) && vhr1.named[key] == r1);
        lemma_register_names_at(vhr1.named, s2.server_names, r2, key);
        if exists|b: int| 0 <= b < s2.server_names.len() && #[trigger] lower_chars(
            s2.server_names[b],
        ) == key {
            let b = choose|b: int|
                0 <= b < s2.server_names.len() && #[trigger] lower_chars(s2.server_names[b])
                    == key;
            assert(false);
        }
    }
    assert forall|b: int| 0 <= b < s2.server_names.len() implies m2[k].named.contains_key(
        #[trigger] lower_chars(s2.server_names[b]),
    ) && m2[k].named[lower_chars(s2.server_names[b])] == r2 by {
        let key = lower_chars(s2.server_names[b]);
        lemma_register_names_at(vhr1.named, s2.server_names, r2, key);
    }
    assert forall|h: Seq<char>|
        !(exists|a: int| 0 <= a < s1.server_names.len() && #[trigger] lower_chars(
            s1.server_names[a],
        ) == h) && !(exists|b: int| 0 <= b < s2.server_names.len() && #[trigger] lower_chars(
            s2.server_names[b],
        ) == h) implies !(#[trigger] spec_from_http(http)[k].named.contains_key(h)) by {
        lemma_register_names_at(empty_vhr().named, s1.server_names, r1, h);
        lemma_register_names_at(vhr1.named, s2.server_names, r2, h);
        assert(!empty_vhr().named.contains_key(h));
    }
}

} // verus!

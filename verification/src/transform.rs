//! Lowering of the generic syntax tree into the typed IR: directive names,
//! argument arities and value formats are validated; anything unknown or
//! malformed aborts lowering with a descriptive error.

use vstd::prelude::*;

use crate::ast::{nodes_view, Ast, Block, Directive, Node, SpecNode};
use crate::ir::{
    Http, IpAddr, Ir, Listen, Location, LocationDirective, LocationMatcher, PemSource, Server,
    SpecHttp, SpecIr, SpecLocation, SpecLocationDirective, SpecMatcher, SpecPemSource, SpecServer,
    SpecTlsIdentity, Switch, TlsIdentity,
};
use crate::text::{
    is_prefix_of, parse_ipv4, parse_u16, spec_find, spec_parse_ipv4, spec_parse_ipv6,
    spec_parse_u16, spec_rfind, str_eq, str_rfind, str_starts_with,
};
use vstd::string::StringExecFns;

verus! {

/// A lowering failure: an unknown name, a wrong arity, or a malformed value.
#[derive(Debug, Clone, PartialEq, Eq)]
pub struct LowerErr {
    pub message: String,
}

/// What `url::Url::parse` followed by serialization turns a string into:
/// `None` when the crate rejects the string, otherwise the normalized form
/// of the URL.
pub uninterp spec fn url_norm(s: Seq<char>) -> Option<Seq<char>>;

/// Relies on url::Url::parse and Url's Display serialization: both depend on
/// the input string alone, and serializing a parsed URL yields its
/// normalized text.
#[verifier::external_body]
fn normalize_url(raw: &str) -> (r: Option<String>)
    ensures
        r is Some <==> url_norm(raw@) is Some,
        r matches Some(u) ==> url_norm(raw@) == Some(u@),
{
    match url::Url::parse(raw) {
        Ok(u) => Some(u.to_string()),
        Err(_) => None,
    }
}

/// The value of a `on` / `off` argument list: exactly one argument, spelled
/// exactly `on` or `off`.
pub open spec fn spec_switch(args: Seq<Seq<char>>) -> Option<Switch> {
    if args.len() == 1 && args[0] == "on"@ {
        Some(Switch::On)
    } else if args.len() == 1 && args[0] == "off"@ {
        Some(Switch::Off)
    } else {
        None
    }
}

/// `s` without its leading `@` characters.
pub open spec fn spec_strip_at(s: Seq<char>) -> Seq<char>
    decreases s.len(),
{
    if s.len() > 0 && s[0] == '@' {
        spec_strip_at(s.drop_first())
    } else {
        s
    }
}

/// The matcher selected by a `location` block's arguments.
pub open spec fn spec_location_matcher(args: Seq<Seq<char>>) -> Option<SpecMatcher> {
    if args.len() == 2 && args[0] == "="@ {
        Some(SpecMatcher::Exact(args[1]))
    } else if args.len() == 2 && args[0] == "~"@ {
        Some(SpecMatcher::Regex { case_insensitive: false, pattern: args[1] })
    } else if args.len() == 2 && args[0] == "~*"@ {
        Some(SpecMatcher::Regex { case_insensitive: true, pattern: args[1] })
    } else if args.len() == 2 && args[0] == "^~"@ {
        Some(SpecMatcher::PreferPrefix(args[1]))
    } else if args.len() == 1 && args[0].len() > 0 && args[0][0] == '@' {
        Some(SpecMatcher::Named(spec_strip_at(args[0])))
    } else if args.len() == 1 {
        Some(SpecMatcher::Prefix(args[0]))
    } else {
        None
    }
}

/// The directive allowed inside a `location` block: `proxy_pass` with one
/// argument that the url crate accepts.
pub open spec fn spec_location_directive(name: Seq<char>, args: Seq<Seq<char>>) -> Option<
    SpecLocationDirective,
> {
    if name == "proxy_pass"@ {
        if args.len() == 1 {
            match url_norm(args[0]) {
                Some(u) => Some(SpecLocationDirective::ProxyPass(u)),
                None => None,
            }
        } else {
            None
        }
    } else {
        None
    }
}

/// The interpretation of a `listen` endpoint argument: `*:<port>` and a bare
/// port bind the unspecified address; `unix:` endpoints are rejected; an
/// `address:port` pair binds that exact address.
pub open spec fn spec_listen_endpoint(ep: Seq<char>) -> Option<(IpAddr, u16)> {
    if is_prefix_of("*:"@, ep) {
        match spec_parse_u16(ep.skip(2)) {
            Some(p) => Some((IpAddr::V4(0), p)),
            None => None,
        }
    } else if is_prefix_of("unix:"@, ep) {
        None
    } else if spec_parse_sockaddr(ep) is Some {
        spec_parse_sockaddr(ep)
    } else {
        match spec_parse_u16(ep) {
            Some(p) => Some((IpAddr::V4(0), p)),
            None => None,
        }
    }
}

/// An `address:port` pair: either a bracketed IPv6 literal — optionally
/// carrying a numeric `%` zone identifier, which is validated and then
/// discarded, since the address value has no scope — followed by `:port`,
/// or a dotted-quad IPv4 literal and a port split at the last `:`.
pub open spec fn spec_parse_sockaddr(s: Seq<char>) -> Option<(IpAddr, u16)> {
    if s.len() > 0 && s[0] == '[' {
        let rb = spec_find(s, ']');
        if 1 <= rb && rb + 1 < s.len() && s[rb + 1] == ':' {
            let inner = s.subrange(1, rb);
            let pc = spec_find(inner, '%');
            let addr_part = if pc >= 0 {
                inner.take(pc)
            } else {
                inner
            };
            let zone_ok = if pc >= 0 {
                crate::text::spec_parse_u32(inner.skip(pc + 1)) is Some
            } else {
                true
            };
            if zone_ok {
                match (spec_parse_ipv6(addr_part), spec_parse_u16(s.skip(rb + 2))) {
                    (Some(a), Some(p)) => Some((IpAddr::V6(a), p)),
                    _ => None,
                }
            } else {
                None
            }
        } else {
            None
        }
    } else {
        let j = spec_rfind(s, ':');
        if 0 <= j < s.len() {
            match (spec_parse_ipv4(s.take(j)), spec_parse_u16(s.skip(j + 1))) {
                (Some(a), Some(p)) => Some((IpAddr::V4(a), p)),
                _ => None,
            }
        } else {
            None
        }
    }
}

/// Every argument after the endpoint is a recognized flag.
pub open spec fn listen_flags_ok(args: Seq<Seq<char>>) -> bool {
    forall|i: int| 1 <= i < args.len() ==> (#[trigger] args[i] == "ssl"@ || args[i]
        == "default_server"@)
}

/// The `Listen` produced by a `listen` argument list: the endpoint
/// interpretation above, plus the `ssl` and `default_server` flags.
pub open spec fn spec_parse_listen(args: Seq<Seq<char>>) -> Option<Listen> {
    if args.len() == 0 {
        None
    } else {
        match spec_listen_endpoint(args[0]) {
            None => None,
            Some((addr, port)) => {
                if listen_flags_ok(args) {
                    Some(
                        Listen {
                            addr,
                            port,
                            ssl: exists|i: int| 1 <= i < args.len() && args[i] == "ssl"@,
                            default_server: exists|i: int|
                                1 <= i < args.len() && args[i] == "default_server"@,
                        },
                    )
                } else {
                    None
                }
            },
        }
    }
}

/// Reads a `tcp_nodelay`-style switch from a directive's arguments.
pub fn get_directive_switch(d: &Directive) -> (r: Result<Switch, LowerErr>)
    ensures
        match r {
            Ok(sw) => spec_switch(d.args.deep_view()) == Some(sw),
            Err(_) => spec_switch(d.args.deep_view()) is None,
        },
{
    if d.args.len() == 1 {
        let v = &d.args[0];
        proof {
            assert(d.args.deep_view()[0] == d.args@[0]@);
        }
        if str_eq(v.as_str(), "on") {
            Ok(Switch::On)
        } else if str_eq(v.as_str(), "off") {
            Ok(Switch::Off)
        } else {
            let mut m = d.name.clone();
            m.append(": expected on|off");
            Err(LowerErr { message: m })
        }
    } else {
        let mut m = d.name.clone();
        m.append(": expected exactly one argument on|off");
        Err(LowerErr { message: m })
    }
}

/// The block behind `node`, when it is a block of the given name.
pub fn block_named<'a>(node: &'a Node, name: &str) -> (r: Option<&'a Block>)
    ensures
        match r {
            Some(b) => node@ == (SpecNode::Block {
                name: name@,
                args: b.args.deep_view(),
                children: nodes_view(b.children@),
            }) && b.name@ == name@,
            None => !(node@ matches SpecNode::Block { name: n2, .. } && n2 == name@),
        },
{
    match node {
        Node::Block(b) => {
            if str_eq(name, b.name.as_str()) {
                proof {
                    crate::ast::lemma_nodes_view_rec(b.children@);
                    assert(node@ =~~= (SpecNode::Block {
                        name: name@,
                        args: b.args.deep_view(),
                        children: nodes_view(b.children@),
                    }));
                }
                Some(b)
            } else {
                None
            }
        },
        Node::Directive(_) => None,
    }
}

/// Strips the leading `@` characters from a location name.
fn strip_at(s: &str) -> (r: String)
    ensures
        r@ == spec_strip_at(s@),
{
    let n = s.unicode_len();
    proof {
        assert(s@.skip(0) =~= s@);
    }
    let mut i: usize = 0;
    while i < n
        invariant
            n == s@.len(),
            i <= n,
            spec_strip_at(s@) == spec_strip_at(s@.skip(i as int)),
            forall|k: int| 0 <= k < i ==> s@[k] == '@',
        decreases n - i,
    {
        let c = s.get_char(i);
        proof {
            assert(s@.skip(i as int)[0] == s@[i as int]);
            assert(s@.skip(i as int).drop_first() =~= s@.skip(i + 1));
        }
        if c != '@' {
            let r = s.substring_char(i, n).to_owned();
            proof {
                assert(r@ =~= s@.skip(i as int));
            }
            return r;
        }
        i = i + 1;
    }
    proof {
        assert(s@.skip(n as int).len() == 0);
        assert(spec_strip_at(s@.skip(n as int)) =~= s@.skip(n as int));
    }
    let r = s.substring_char(n, n).to_owned();
    proof {
        assert(r@ =~= s@.skip(n as int));
    }
    r
}

/// Selects the location matcher named by a `location` block's arguments.
pub fn parse_location_matcher(args: &[String]) -> (r: Result<LocationMatcher, LowerErr>)
    ensures
        match r {
            Ok(m) => spec_location_matcher(args.deep_view()) == Some(m@),
            Err(_) => spec_location_matcher(args.deep_view()) is None,
        },
{
    let n = args.len();
    if n == 2 {
        let op = vstd::slice::slice_index_get(args, 0);
        let val = vstd::slice::slice_index_get(args, 1);
        proof {
            assert(args.deep_view()[0] == args@[0]@);
            assert(args.deep_view()[1] == args@[1]@);
        }
        if str_eq(op.as_str(), "=") {
            Ok(LocationMatcher::Exact(val.clone()))
        } else if str_eq(op.as_str(), "~") {
            Ok(LocationMatcher::Regex { case_insensitive: false, pattern: val.clone() })
        } else if str_eq(op.as_str(), "~*") {
            Ok(LocationMatcher::Regex { case_insensitive: true, pattern: val.clone() })
        } else if str_eq(op.as_str(), "^~") {
            Ok(LocationMatcher::PreferPrefix(val.clone()))
        } else {
            Err(LowerErr { message: "invalid location args".to_owned() })
        }
    } else if n == 1 {
        let first = vstd::slice::slice_index_get(args, 0);
        proof {
            assert(args.deep_view()[0] == args@[0]@);
        }
        if first.as_str().unicode_len() > 0 && first.as_str().get_char(0) == '@' {
            Ok(LocationMatcher::Named(strip_at(first.as_str())))
        } else {
            Ok(LocationMatcher::Prefix(first.clone()))
        }
    } else {
        Err(LowerErr { message: "invalid location args".to_owned() })
    }
}

/// Parses the `address:port` form of a listen endpoint.
fn parse_sockaddr(ep: &str) -> (r: Option<(IpAddr, u16)>)
    ensures
        r == spec_parse_sockaddr(ep@),
{
    let n = ep.unicode_len();
    if n > 0 && ep.get_char(0) == '[' {
        let rb = match crate::text::str_find_from(ep, 0, ']') {
            Some(rb) => rb,
            None => {
                proof {
                    assert(ep@.skip(0) =~= ep@);
                }
                return None;
            },
        };
        proof {
            assert(ep@.skip(0) =~= ep@);
        }
        if rb < 1 || rb + 1 >= n || ep.get_char(rb + 1) != ':' {
            return None;
        }
        let inner = ep.substring_char(1, rb);
        let port_part = ep.substring_char(rb + 2, n);
        proof {
            assert(inner@ =~= ep@.subrange(1, rb as int));
            assert(port_part@ =~= ep@.skip(rb + 2));
        }
        let inner_len = inner.unicode_len();
        let addr_str: &str = match crate::text::str_find_from(inner, 0, '%') {
            Some(pc) => {
                proof {
                    assert(inner@.skip(0) =~= inner@);
                }
                let zone = inner.substring_char(pc + 1, inner_len);
                proof {
                    assert(zone@ =~= inner@.skip(pc + 1));
                }
                if crate::text::parse_u32(zone).is_none() {
                    return None;
                }
                let a = inner.substring_char(0, pc);
                proof {
                    assert(a@ =~= inner@.take(pc as int));
                }
                a
            },
            None => {
                proof {
                    assert(inner@.skip(0) =~= inner@);
                }
                inner
            },
        };
        return match (crate::text::parse_ipv6(addr_str), parse_u16(port_part)) {
            (Some(a), Some(p)) => Some((IpAddr::V6(a), p)),
            _ => None,
        };
    }
    match str_rfind(ep, ':') {
        Some(j) => {
            let left = ep.substring_char(0, j);
            let right = ep.substring_char(j + 1, n);
            proof {
                assert(left@ =~= ep@.take(j as int));
                assert(right@ =~= ep@.skip(j + 1));
            }
            match (parse_ipv4(left), parse_u16(right)) {
                (Some(a), Some(p)) => Some((IpAddr::V4(a), p)),
                _ => None,
            }
        },
        None => None,
    }
}

/// Parses a `listen` directive's argument list.
pub fn parse_listen_directives(args: &[String]) -> (r: Result<Listen, LowerErr>)
    ensures
        match r {
            Ok(l) => spec_parse_listen(args.deep_view()) == Some(l),
            Err(_) => spec_parse_listen(args.deep_view()) is None,
        },
{
    let n = args.len();
    if n == 0 {
        return Err(LowerErr { message: "listen: expected endpoint".to_owned() });
    }
    let ep = vstd::slice::slice_index_get(args, 0);
    proof {
        assert(args.deep_view()[0] == args@[0]@);
    }
    let endpoint: (IpAddr, u16);
    if str_starts_with(ep.as_str(), "*:") {
        proof {
            reveal_strlit("*:");
        }
        let rest = ep.as_str().substring_char(2, ep.as_str().unicode_len());
        proof {
            assert(rest@ =~= ep@.skip(2));
        }
        match parse_u16(rest) {
            Some(p) => {
                endpoint = (IpAddr::V4(0), p);
            },
            None => {
                let mut m = "listen: invalid port ".to_owned();
                m.append(rest);
                return Err(LowerErr { message: m });
            },
        }
    } else if str_starts_with(ep.as_str(), "unix:") {
        return Err(LowerErr { message: "listen: unix sockets not supported".to_owned() });
    } else {
        match parse_sockaddr(ep.as_str()) {
            Some(ap) => {
                endpoint = ap;
            },
            None => {
                match parse_u16(ep.as_str()) {
                    Some(p) => {
                        endpoint = (IpAddr::V4(0), p);
                    },
                    None => {
                        let mut m = "failed to parse listen address ".to_owned();
                        m.append(ep.as_str());
                        return Err(LowerErr { message: m });
                    },
                }
            },
        }
    }
    let mut ssl = false;
    let mut default_server = false;
    let mut i: usize = 1;
    while i < n
        invariant
            n == args@.len(),
            1 <= i <= n,
            forall|k: int| 1 <= k < i ==> (#[trigger] args.deep_view()[k] == "ssl"@
                || args.deep_view()[k] == "default_server"@),
            ssl == exists|k: int| 1 <= k < i && args.deep_view()[k] == "ssl"@,
            default_server == exists|k: int|
                1 <= k < i && args.deep_view()[k] == "default_server"@,
        decreases n - i,
    {
        let flag = vstd::slice::slice_index_get(args, i);
        proof {
            assert(args.deep_view()[i as int] == args@[i as int]@);
        }
        if str_eq(flag.as_str(), "ssl") {
            ssl = true;
            proof {
                reveal_strlit("ssl");
                reveal_strlit("default_server");
                assert(args.deep_view()[i as int] == "ssl"@);
                assert("ssl"@.len() != "default_server"@.len());
            }
        } else if str_eq(flag.as_str(), "default_server") {
            default_server = true;
            proof {
                reveal_strlit("ssl");
                reveal_strlit("default_server");
                assert(args.deep_view()[i as int] == "default_server"@);
                assert("ssl"@.len() != "default_server"@.len());
            }
        } else {
            proof {
                assert(!listen_flags_ok(args.deep_view()));
            }
            let mut m = "listen: unknown parameter ".to_owned();
            m.append(flag.as_str());
            return Err(LowerErr { message: m });
        }
        i = i + 1;
    }
    Ok(Listen { addr: endpoint.0, port: endpoint.1, ssl, default_server })
}


/// The views of a location-directive sequence.
pub open spec fn locdirs_view(s: Seq<LocationDirective>) -> Seq<SpecLocationDirective> {
    Seq::new(s.len(), |i: int| s[i]@)
}

/// The empty server accumulator.
pub open spec fn empty_server() -> SpecServer {
    SpecServer {
        server_names: Seq::<Seq<char>>::empty(),
        locations: Seq::<SpecLocation>::empty(),
        listens: Seq::<Listen>::empty(),
        tls: None,
    }
}

/// The default `http` scope settings.
pub open spec fn default_http() -> SpecHttp {
    SpecHttp {
        servers: Seq::<SpecServer>::empty(),
        keepalive_timeout: "60s"@,
        tcp_nodelay: Switch::On,
    }
}

/// One directive applied to the `http` accumulator.
pub open spec fn sl_http_directive(acc: SpecHttp, name: Seq<char>, args: Seq<Seq<char>>) -> Option<
    SpecHttp,
> {
    if name == "keepalive_timeout"@ {
        if args.len() == 1 {
            Some(SpecHttp { servers: acc.servers, keepalive_timeout: args[0], tcp_nodelay: acc.tcp_nodelay })
        } else {
            None
        }
    } else if name == "tcp_nodelay"@ {
        match spec_switch(args) {
            Some(sw) => Some(SpecHttp { servers: acc.servers, keepalive_timeout: acc.keepalive_timeout, tcp_nodelay: sw }),
            None => None,
        }
    } else {
        None
    }
}

/// The key of a TLS accumulator, or an empty path before one is set.
pub open spec fn tls_key_of(t: Option<SpecTlsIdentity>) -> SpecPemSource {
    match t {
        Some(x) => x.key,
        None => SpecPemSource::Path(Seq::<char>::empty()),
    }
}

/// The certificate of a TLS accumulator, or an empty path before one is set.
pub open spec fn tls_cert_of(t: Option<SpecTlsIdentity>) -> SpecPemSource {
    match t {
        Some(x) => x.cert,
        None => SpecPemSource::Path(Seq::<char>::empty()),
    }
}

/// One directive applied to the server accumulator.
pub open spec fn sl_server_directive(acc: SpecServer, name: Seq<char>, args: Seq<Seq<char>>) -> Option<
    SpecServer,
> {
    if name == "listen"@ {
        match spec_parse_listen(args) {
            Some(l) => Some(SpecServer {
                server_names: acc.server_names,
                locations: acc.locations,
                listens: acc.listens.push(l),
                tls: acc.tls,
            }),
            None => None,
        }
    } else if name == "server_name"@ {
        if args.len() >= 1 {
            Some(SpecServer {
                server_names: acc.server_names + args,
                locations: acc.locations,
                listens: acc.listens,
                tls: acc.tls,
            })
        } else {
            None
        }
    } else if name == "ssl_certificate"@ {
        if args.len() == 1 {
            Some(SpecServer {
                server_names: acc.server_names,
                locations: acc.locations,
                listens: acc.listens,
                tls: Some(SpecTlsIdentity { cert: SpecPemSource::Path(args[0]), key: tls_key_of(acc.tls) }),
            })
        } else {
            None
        }
    } else if name == "ssl_certificate_key"@ {
        if args.len() == 1 {
            Some(SpecServer {
                server_names: acc.server_names,
                locations: acc.locations,
                listens: acc.listens,
                tls: Some(SpecTlsIdentity { cert: tls_cert_of(acc.tls), key: SpecPemSource::Path(args[0]) }),
            })
        } else {
            None
        }
    } else {
        None
    }
}

/// The directives of a `location` block, folded from the left.
pub open spec fn sl_location_directives(
    nodes: Seq<SpecNode>,
    acc: Seq<SpecLocationDirective>,
) -> Option<Seq<SpecLocationDirective>>
    decreases nodes.len(),
{
    if nodes.len() == 0 {
        Some(acc)
    } else {
        match nodes[0] {
            SpecNode::Directive { name, args } => match spec_location_directive(name, args) {
                Some(ld) => sl_location_directives(nodes.drop_first(), acc.push(ld)),
                None => None,
            },
            SpecNode::Block { .. } => None,
        }
    }
}

/// One whole `location` block.
pub open spec fn sl_location(args: Seq<Seq<char>>, children: Seq<SpecNode>) -> Option<SpecLocation> {
    match spec_location_matcher(args) {
        Some(m) => match sl_location_directives(children, Seq::<SpecLocationDirective>::empty()) {
            Some(ds) => Some(SpecLocation { matcher: m, directives: ds }),
            None => None,
        },
        None => None,
    }
}

/// The children of a `server` block, folded into a server.
pub open spec fn sl_server(nodes: Seq<SpecNode>, acc: SpecServer) -> Option<SpecServer>
    decreases nodes.len(),
{
    if nodes.len() == 0 {
        Some(acc)
    } else {
        match nodes[0] {
            SpecNode::Directive { name, args } => match sl_server_directive(acc, name, args) {
                Some(acc2) => sl_server(nodes.drop_first(), acc2),
                None => None,
            },
            SpecNode::Block { name, args, children } => {
                if name == "location"@ {
                    match sl_location(args, children) {
                        Some(loc) => sl_server(
                            nodes.drop_first(),
                            SpecServer {
                                server_names: acc.server_names,
                                locations: acc.locations.push(loc),
                                listens: acc.listens,
                                tls: acc.tls,
                            },
                        ),
                        None => None,
                    }
                } else {
                    None
                }
            },
        }
    }
}

/// The children of an `http` block, folded into an `Http`.
pub open spec fn sl_http(nodes: Seq<SpecNode>, acc: SpecHttp) -> Option<SpecHttp>
    decreases nodes.len(),
{
    if nodes.len() == 0 {
        Some(acc)
    } else {
        match nodes[0] {
            SpecNode::Directive { name, args } => match sl_http_directive(acc, name, args) {
                Some(acc2) => sl_http(nodes.drop_first(), acc2),
                None => None,
            },
            SpecNode::Block { name, args, children } => {
                if name == "server"@ {
                    match sl_server(children, empty_server()) {
                        Some(srv) => sl_http(
                            nodes.drop_first(),
                            SpecHttp {
                                servers: acc.servers.push(srv),
                                keepalive_timeout: acc.keepalive_timeout,
                                tcp_nodelay: acc.tcp_nodelay,
                            },
                        ),
                        None => None,
                    }
                } else {
                    None
                }
            },
        }
    }
}

/// The top level: only `http` blocks are interpreted; the last one wins.
pub open spec fn sl_top(nodes: Seq<SpecNode>, http: Option<SpecHttp>) -> Option<Option<SpecHttp>>
    decreases nodes.len(),
{
    if nodes.len() == 0 {
        Some(http)
    } else {
        match nodes[0] {
            SpecNode::Directive { .. } => sl_top(nodes.drop_first(), http),
            SpecNode::Block { name, args, children } => {
                if name == "http"@ {
                    match sl_http(children, default_http()) {
                        Some(h) => sl_top(nodes.drop_first(), Some(h)),
                        None => None,
                    }
                } else {
                    sl_top(nodes.drop_first(), http)
                }
            },
        }
    }
}

/// Lowering of a whole syntax tree.
pub open spec fn spec_lower(ast: Seq<SpecNode>) -> Option<SpecIr> {
    match sl_top(ast, None) {
        Some(h) => Some(SpecIr { http: h }),
        None => None,
    }
}

/// Deep copy of a PEM source.
fn clone_pem(p: &PemSource) -> (r: PemSource)
    ensures
        r@ == p@,
{
    match p {
        PemSource::Path(x) => PemSource::Path(x.clone()),
        PemSource::InlinePem(x) => PemSource::InlinePem(x.clone()),
    }
}

fn apply_http_directive(http: &mut Http, d: &Directive) -> (r: Result<(), LowerErr>)
    ensures
        match r {
            Ok(_) => sl_http_directive(old(http)@, d.name@, d.args.deep_view()) == Some(
                final(http)@,
            ),
            Err(_) => sl_http_directive(old(http)@, d.name@, d.args.deep_view()) is None
                && *final(http) == *old(http),
        },
{
    if str_eq(d.name.as_str(), "keepalive_timeout") {
        if d.args.len() == 1 {
            proof {
                assert(d.args.deep_view()[0] == d.args@[0]@);
            }
            http.keepalive_timeout = d.args[0].clone();
            proof {
                assert(http@ =~~= (SpecHttp {
                    servers: old(http)@.servers,
                    keepalive_timeout: d.args.deep_view()[0],
                    tcp_nodelay: old(http)@.tcp_nodelay,
                }));
            }
            Ok(())
        } else {
            let mut m = d.name.clone();
            m.append(": expected exactly 1 argument");
            Err(LowerErr { message: m })
        }
    } else if str_eq(d.name.as_str(), "tcp_nodelay") {
        match get_directive_switch(d) {
            Ok(sw) => {
                http.tcp_nodelay = sw;
                proof {
                    assert(http@ =~~= (SpecHttp {
                        servers: old(http)@.servers,
                        keepalive_timeout: old(http)@.keepalive_timeout,
                        tcp_nodelay: sw,
                    }));
                }
                Ok(())
            },
            Err(e) => Err(e),
        }
    } else {
        let mut m = "unsupported http directive: ".to_owned();
        m.append(d.name.as_str());
        Err(LowerErr { message: m })
    }
}

fn apply_server_directive(server: &mut Server, d: &Directive) -> (r: Result<(), LowerErr>)
    ensures
        match r {
            Ok(_) => sl_server_directive(old(server)@, d.name@, d.args.deep_view()) == Some(
                final(server)@,
            ),
            Err(_) => sl_server_directive(old(server)@, d.name@, d.args.deep_view()) is None
                && *final(server) == *old(server),
        },
{
    if str_eq(d.name.as_str(), "listen") {
        match parse_listen_directives(d.args.as_slice()) {
            Ok(listen) => {
                server.listens.push(listen);
                proof {
                    assert(server@ =~~= (SpecServer {
                        server_names: old(server)@.server_names,
                        locations: old(server)@.locations,
                        listens: old(server)@.listens.push(listen),
                        tls: old(server)@.tls,
                    }));
                }
                Ok(())
            },
            Err(e) => Err(e),
        }
    } else if str_eq(d.name.as_str(), "server_name") {
        if d.args.len() == 0 {
            return Err(
                LowerErr { message: "server_name: expected at least 1 argument".to_owned() },
            );
        }
        let more = crate::resolve::clone_string_vec(&d.args);
        let ghost names0 = server.server_names.deep_view();
        let mut appended = more;
        server.server_names.append(&mut appended);
        proof {
            assert(server.server_names.deep_view() =~~= names0 + d.args.deep_view());
            assert(server@ =~~= (SpecServer {
                server_names: old(server)@.server_names + d.args.deep_view(),
                locations: old(server)@.locations,
                listens: old(server)@.listens,
                tls: old(server)@.tls,
            }));
        }
        Ok(())
    } else if str_eq(d.name.as_str(), "ssl_certificate") {
        if d.args.len() != 1 {
            return Err(
                LowerErr { message: "ssl_certificate: expected exactly 1 argument".to_owned() },
            );
        }
        let mut single: Vec<String> = Vec::new();
        single.push(d.args[0].clone());
        let ps = match PemSource::new(single.as_slice(), false) {
            Ok(p) => p,
            Err(_) => {
                return Err(
                    LowerErr { message: "ssl_certificate: invalid certificate source".to_owned() },
                );
            },
        };
        proof {
            assert(single.deep_view() =~= seq![d.args.deep_view()[0]]);
            crate::ir::lemma_join_single(d.args.deep_view()[0]);
        }
        let key = match &server.tls {
            Some(t) => clone_pem(&t.key),
            None => PemSource::Path(String::new()),
        };
        server.tls = Some(TlsIdentity { cert: ps, key });
        proof {
            assert(server@ =~~= (SpecServer {
                server_names: old(server)@.server_names,
                locations: old(server)@.locations,
                listens: old(server)@.listens,
                tls: Some(SpecTlsIdentity {
                    cert: SpecPemSource::Path(d.args.deep_view()[0]),
                    key: tls_key_of(old(server)@.tls),
                }),
            }));
        }
        Ok(())
    } else if str_eq(d.name.as_str(), "ssl_certificate_key") {
        if d.args.len() != 1 {
            return Err(
                LowerErr { message: "ssl_certificate_key: expected exactly 1 argument".to_owned() },
            );
        }
        let mut single: Vec<String> = Vec::new();
        single.push(d.args[0].clone());
        let ps = match PemSource::new(single.as_slice(), false) {
            Ok(p) => p,
            Err(_) => {
                return Err(
                    LowerErr { message: "ssl_certificate_key: invalid key source".to_owned() },
                );
            },
        };
        proof {
            assert(single.deep_view() =~= seq![d.args.deep_view()[0]]);
            crate::ir::lemma_join_single(d.args.deep_view()[0]);
        }
        let cert = match &server.tls {
            Some(t) => clone_pem(&t.cert),
            None => PemSource::Path(String::new()),
        };
        server.tls = Some(TlsIdentity { cert, key: ps });
        proof {
            assert(server@ =~~= (SpecServer {
                server_names: old(server)@.server_names,
                locations: old(server)@.locations,
                listens: old(server)@.listens,
                tls: Some(SpecTlsIdentity {
                    cert: tls_cert_of(old(server)@.tls),
                    key: SpecPemSource::Path(d.args.deep_view()[0]),
                }),
            }));
        }
        Ok(())
    } else {
        let mut m = "unsupported server directive: ".to_owned();
        m.append(d.name.as_str());
        Err(LowerErr { message: m })
    }
}

fn apply_location_directive(directive: &Directive) -> (r: Result<LocationDirective, LowerErr>)
    ensures
        match r {
            Ok(ld) => spec_location_directive(directive.name@, directive.args.deep_view())
                == Some(ld@),
            Err(_) => spec_location_directive(directive.name@, directive.args.deep_view())
                is None,
        },
{
    if str_eq(directive.name.as_str(), "proxy_pass") {
        if directive.args.len() == 1 {
            proof {
                assert(directive.args.deep_view()[0] == directive.args@[0]@);
            }
            match normalize_url(directive.args[0].as_str()) {
                Some(u) => Ok(LocationDirective::ProxyPass(u)),
                None => Err(LowerErr { message: "proxy_pass: invalid URL".to_owned() }),
            }
        } else if directive.args.len() == 0 {
            Err(LowerErr { message: "proxy_pass: expected URL".to_owned() })
        } else {
            Err(LowerErr { message: "proxy_pass: expected exactly 1 argument".to_owned() })
        }
    } else {
        let mut m = "unknown directive in location: ".to_owned();
        m.append(directive.name.as_str());
        Err(LowerErr { message: m })
    }
}

#[verifier::loop_isolation(false)]
fn parse_location_directives(nodes: &Vec<Node>) -> (r: Result<Vec<LocationDirective>, LowerErr>)
    ensures
        match r {
            Ok(ds) => sl_location_directives(
                nodes_view(nodes@),
                Seq::<SpecLocationDirective>::empty(),
            ) == Some(locdirs_view(ds@)),
            Err(_) => sl_location_directives(
                nodes_view(nodes@),
                Seq::<SpecLocationDirective>::empty(),
            ) is None,
        },
{
    let ghost nv = nodes_view(nodes@);
    let n = nodes.len();
    let mut directives: Vec<LocationDirective> = Vec::new();
    let mut i: usize = 0;
    proof {
        assert(nv.skip(0) =~= nv);
        assert(locdirs_view(directives@) =~= Seq::<SpecLocationDirective>::empty());
    }
    while i < n
        invariant
            i <= n,
            match sl_location_directives(nv.skip(i as int), locdirs_view(directives@)) {
                Some(f) => sl_location_directives(nv, Seq::<SpecLocationDirective>::empty())
                    == Some(f),
                None => sl_location_directives(nv, Seq::<SpecLocationDirective>::empty())
                    is None,
            },
        decreases n - i,
    {
        let node = &nodes[i];
        proof {
            assert(nv.skip(i as int)[0] == nv[i as int]);
            assert(nv.skip(i as int).drop_first() =~= nv.skip(i + 1));
        }
        match node {
            Node::Directive(directive) => {
                proof {
                    assert(nv[i as int] == SpecNode::Directive {
                        name: directive.name@,
                        args: directive.args.deep_view(),
                    });
                }
                match apply_location_directive(directive) {
                    Ok(ld) => {
                        let ghost pre = locdirs_view(directives@);
                        directives.push(ld);
                        proof {
                            assert(locdirs_view(directives@) =~~= pre.push(ld@));
                        }
                    },
                    Err(e) => {
                        return Err(e);
                    },
                }
            },
            Node::Block(block) => {
                proof {
                    crate::ast::lemma_nodes_view_rec(block.children@);
                    assert(nv[i as int] matches SpecNode::Block { .. });
                }
                let mut m = "unexpected inner block in location block: ".to_owned();
                m.append(block.name.as_str());
                return Err(LowerErr { message: m });
            },
        }
        i = i + 1;
    }
    proof {
        assert(nv.skip(n as int).len() == 0);
    }
    Ok(directives)
}

fn lower_location(block: &Block) -> (r: Result<Location, LowerErr>)
    ensures
        match r {
            Ok(loc) => sl_location(block.args.deep_view(), nodes_view(block.children@)) == Some(
                loc@,
            ),
            Err(_) => sl_location(block.args.deep_view(), nodes_view(block.children@)) is None,
        },
{
    let matcher = match parse_location_matcher(block.args.as_slice()) {
        Ok(m) => m,
        Err(e) => {
            return Err(e);
        },
    };
    let directives = match parse_location_directives(&block.children) {
        Ok(ds) => ds,
        Err(e) => {
            return Err(e);
        },
    };
    let loc = Location { matcher, directives };
    proof {
        assert(loc@ =~~= (SpecLocation {
            matcher: loc.matcher@,
            directives: locdirs_view(loc.directives@),
        }));
    }
    Ok(loc)
}

#[verifier::loop_isolation(false)]
fn lower_server(block: &Block) -> (r: Result<Server, LowerErr>)
    ensures
        match r {
            Ok(s) => sl_server(nodes_view(block.children@), empty_server()) == Some(s@),
            Err(_) => sl_server(nodes_view(block.children@), empty_server()) is None,
        },
{
    let ghost cv = nodes_view(block.children@);
    let n = block.children.len();
    let mut server = Server::default();
    let mut i: usize = 0;
    proof {
        assert(cv.skip(0) =~= cv);
        assert(server@ =~~= empty_server());
    }
    while i < n
        invariant
            i <= n,
            match sl_server(cv.skip(i as int), server@) {
                Some(f) => sl_server(cv, empty_server()) == Some(f),
                None => sl_server(cv, empty_server()) is None,
            },
        decreases n - i,
    {
        let node = &block.children[i];
        proof {
            assert(cv.skip(i as int)[0] == cv[i as int]);
            assert(cv.skip(i as int).drop_first() =~= cv.skip(i + 1));
        }
        match node {
            Node::Directive(directive) => {
                proof {
                    assert(cv[i as int] == SpecNode::Directive {
                        name: directive.name@,
                        args: directive.args.deep_view(),
                    });
                }
                match apply_server_directive(&mut server, directive) {
                    Ok(_) => {},
                    Err(e) => {
                        return Err(e);
                    },
                }
            },
            Node::Block(inner) => {
                proof {
                    crate::ast::lemma_nodes_view_rec(inner.children@);
                    assert(cv[i as int] == SpecNode::Block {
                        name: inner.name@,
                        args: inner.args.deep_view(),
                        children: nodes_view(inner.children@),
                    });
                }
                if str_eq(inner.name.as_str(), "location") {
                    match lower_location(inner) {
                        Ok(loc) => {
                            let ghost pre = server@;
                            server.locations.push(loc);
                            proof {
                                assert(server@ =~~= (SpecServer {
                                    server_names: pre.server_names,
                                    locations: pre.locations.push(loc@),
                                    listens: pre.listens,
                                    tls: pre.tls,
                                }));
                            }
                        },
                        Err(e) => {
                            return Err(e);
                        },
                    }
                } else {
                    let mut m = "unknown name of block: ".to_owned();
                    m.append(inner.name.as_str());
                    return Err(LowerErr { message: m });
                }
            },
        }
        i = i + 1;
    }
    proof {
        assert(cv.skip(n as int).len() == 0);
    }
    Ok(server)
}

#[verifier::loop_isolation(false)]
fn lower_http(block: &Block) -> (r: Result<Http, LowerErr>)
    ensures
        match r {
            Ok(h) => sl_http(nodes_view(block.children@), default_http()) == Some(h@),
            Err(_) => sl_http(nodes_view(block.children@), default_http()) is None,
        },
{
    let ghost cv = nodes_view(block.children@);
    let n = block.children.len();
    let mut http = Http::default();
    let mut i: usize = 0;
    proof {
        assert(cv.skip(0) =~= cv);
        assert(http@ =~~= default_http());
    }
    while i < n
        invariant
            i <= n,
            match sl_http(cv.skip(i as int), http@) {
                Some(f) => sl_http(cv, default_http()) == Some(f),
                None => sl_http(cv, default_http()) is None,
            },
        decreases n - i,
    {
        let node = &block.children[i];
        proof {
            assert(cv.skip(i as int)[0] == cv[i as int]);
            assert(cv.skip(i as int).drop_first() =~= cv.skip(i + 1));
        }
        match node {
            Node::Directive(directive) => {
                proof {
                    assert(cv[i as int] == SpecNode::Directive {
                        name: directive.name@,
                        args: directive.args.deep_view(),
                    });
                }
                match apply_http_directive(&mut http, directive) {
                    Ok(_) => {},
                    Err(e) => {
                        return Err(e);
                    },
                }
            },
            Node::Block(inner) => {
                proof {
                    crate::ast::lemma_nodes_view_rec(inner.children@);
                    assert(cv[i as int] == SpecNode::Block {
                        name: inner.name@,
                        args: inner.args.deep_view(),
                        children: nodes_view(inner.children@),
                    });
                }
                match block_named(node, "server") {
                    Some(b) => {
                        match lower_server(b) {
                            Ok(srv) => {
                                let ghost pre = http@;
                                http.servers.push(srv);
                                proof {
                                    assert(http@ =~~= (SpecHttp {
                                        servers: pre.servers.push(srv@),
                                        keepalive_timeout: pre.keepalive_timeout,
                                        tcp_nodelay: pre.tcp_nodelay,
                                    }));
                                }
                            },
                            Err(e) => {
                                return Err(e);
                            },
                        }
                    },
                    None => {
                        let mut m = "unknown block name: ".to_owned();
                        m.append(inner.name.as_str());
                        return Err(LowerErr { message: m });
                    },
                }
            },
        }
        i = i + 1;
    }
    proof {
        assert(cv.skip(n as int).len() == 0);
    }
    Ok(http)
}

impl Ir {
    /// Lowers a resolved syntax tree into the typed IR. Only the last
    /// top-level `http` block is interpreted; other top-level content is
    /// ignored.
    #[verifier::loop_isolation(false)]
    pub fn from_ast(ast: &Ast) -> (r: Result<Self, LowerErr>)
        ensures
            match r {
                Ok(ir) => spec_lower(ast@) == Some(ir@),
                Err(_) => spec_lower(ast@) is None,
            },
    {
        let ghost av = ast@;
        let n = ast.items.len();
        let mut http: Option<Http> = None;
        let mut i: usize = 0;
        proof {
            assert(av.skip(0) =~= av);
        }
        while i < n
            invariant
                i <= n,
                match sl_top(
                    av.skip(i as int),
                    match http {
                        Some(h) => Some(h@),
                        None => None,
                    },
                ) {
                    Some(f) => sl_top(av, None) == Some(f),
                    None => sl_top(av, None) is None,
                },
            decreases n - i,
        {
            let node = &ast.items[i];
            proof {
                assert(av.skip(i as int)[0] == av[i as int]);
                assert(av.skip(i as int).drop_first() =~= av.skip(i + 1));
            }
            match node {
                Node::Directive(d) => {
                    proof {
                        assert(av[i as int] matches SpecNode::Directive { .. });
                    }
                },
                Node::Block(inner) => {
                    proof {
                        crate::ast::lemma_nodes_view_rec(inner.children@);
                        assert(av[i as int] == SpecNode::Block {
                            name: inner.name@,
                            args: inner.args.deep_view(),
                            children: nodes_view(inner.children@),
                        });
                    }
                    if str_eq(inner.name.as_str(), "http") {
                        match lower_http(inner) {
                            Ok(h) => {
                                http = Some(h);
                            },
                            Err(e) => {
                                return Err(e);
                            },
                        }
                    }
                },
            }
            i = i + 1;
        }
        proof {
            assert(av.skip(n as int).len() == 0);
        }
        let ir = Ir { http };
        Ok(ir)
    }
}

} // verus!

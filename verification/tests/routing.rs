//! Tests of the router compiler and the match engine's precedence rules.

use ngxora::ast::Ast;
use ngxora::ir::{Http, IpAddr, Ir, Listen, Location, LocationMatcher, Server, Switch};
use ngxora::matcher::{match_route, select_location};
use ngxora::router::{
    CompiledLocation, CompiledMatcher, CompiledRouter, ListenKey, RouteTarget,
};

fn compile(input: &str) -> CompiledRouter {
    let ast = Ast::parse_config(input).unwrap();
    let ir = Ir::from_ast(&ast).unwrap();
    CompiledRouter::from_http(&ir.http.unwrap())
}

fn upstream_of(loc: &CompiledLocation) -> &str {
    match &loc.target {
        RouteTarget::ProxyPass { upstream } => upstream.as_str(),
    }
}

fn loc(matcher: CompiledMatcher, upstream: &str) -> CompiledLocation {
    CompiledLocation {
        matcher,
        target: RouteTarget::ProxyPass { upstream: upstream.to_string() },
    }
}

#[test]
fn match_precedence_follows_nginx_rules() {
    let locations = vec![
        loc(CompiledMatcher::Prefix("/".to_string()), "prefix"),
        loc(CompiledMatcher::PreferPrefix("/img".to_string()), "prefer"),
        loc(
            CompiledMatcher::Regex {
                case_insensitive: false,
                pattern: "\\.png$".to_string(),
            },
            "regex",
        ),
        loc(CompiledMatcher::Exact("/x".to_string()), "exact"),
    ];

    assert_eq!(select_location(&locations, "/x"), Some(3));
    assert_eq!(select_location(&locations, "/img/a.png"), Some(1));
    assert_eq!(select_location(&locations, "/a.png"), Some(2));
    assert_eq!(select_location(&locations, "/other"), Some(0));
}

#[test]
fn longest_prefix_wins_and_named_is_never_selected() {
    let locations = vec![
        loc(CompiledMatcher::Prefix("/a".to_string()), "short"),
        loc(CompiledMatcher::Prefix("/a/b".to_string()), "long"),
        loc(CompiledMatcher::Named("fallback".to_string()), "named"),
    ];
    assert_eq!(select_location(&locations, "/a/b/c"), Some(1));
    assert_eq!(select_location(&locations, "/a/x"), Some(0));
    assert_eq!(select_location(&locations, "/zzz"), None);
}

#[test]
fn case_insensitive_regex_honors_flag() {
    let locations = vec![
        loc(
            CompiledMatcher::Regex { case_insensitive: false, pattern: "^/API".to_string() },
            "sensitive",
        ),
        loc(
            CompiledMatcher::Regex { case_insensitive: true, pattern: "^/api".to_string() },
            "insensitive",
        ),
    ];
    assert_eq!(select_location(&locations, "/API/v1"), Some(0));
    assert_eq!(select_location(&locations, "/ApI/v1"), Some(1));
    assert_eq!(select_location(&locations, "/other"), None);
}

#[test]
fn end_to_end_compiles_and_routes() {
    let input = r#"
http {
  keepalive_timeout 30s;
  tcp_nodelay off;
  server {
    listen 443 ssl default_server;
    server_name example.com www.example.com;
    location / { proxy_pass http://127.0.0.1:8080; }
  }
}
"#;
    let router = compile(input);
    let key = ListenKey { addr: IpAddr::V4(0), port: 443, ssl: true };

    let hit = match_route(&router, &key, "example.com", "/").expect("no route");
    assert_eq!(upstream_of(&hit), "http://127.0.0.1:8080/");

    let hit = match_route(&router, &key, "WWW.EXAMPLE.COM", "/index.html").expect("no route");
    assert_eq!(upstream_of(&hit), "http://127.0.0.1:8080/");

    let hit = match_route(&router, &key, "unknown.host", "/").expect("no default route");
    assert_eq!(upstream_of(&hit), "http://127.0.0.1:8080/");

    let other_key = ListenKey { addr: IpAddr::V4(0), port: 80, ssl: false };
    assert!(match_route(&router, &other_key, "example.com", "/").is_none());
}

#[test]
fn two_servers_share_one_listener() {
    let input = r#"
http {
  server {
    listen 8080;
    server_name alpha.test;
    location / { proxy_pass http://10.0.0.1/; }
  }
  server {
    listen 8080;
    server_name beta.test;
    location / { proxy_pass http://10.0.0.2/; }
  }
}
"#;
    let router = compile(input);
    let key = ListenKey { addr: IpAddr::V4(0), port: 8080, ssl: false };

    let a = match_route(&router, &key, "alpha.test", "/").expect("alpha unreachable");
    assert_eq!(upstream_of(&a), "http://10.0.0.1/");
    let b = match_route(&router, &key, "beta.test", "/").expect("beta unreachable");
    assert_eq!(upstream_of(&b), "http://10.0.0.2/");

    assert!(match_route(&router, &key, "gamma.test", "/").is_none());
}

#[test]
fn default_server_catches_unknown_hosts() {
    let input = r#"
http {
  server {
    listen 8080 default_server;
    server_name alpha.test;
    location / { proxy_pass http://10.0.0.1/; }
  }
  server {
    listen 8080;
    server_name beta.test;
    location / { proxy_pass http://10.0.0.2/; }
  }
}
"#;
    let router = compile(input);
    let key = ListenKey { addr: IpAddr::V4(0), port: 8080, ssl: false };
    let fallback = match_route(&router, &key, "gamma.test", "/").expect("no default");
    assert_eq!(upstream_of(&fallback), "http://10.0.0.1/");
}

#[test]
fn first_nameless_server_takes_the_default_slot() {
    let input = r#"
http {
  server {
    listen 8080;
    location / { proxy_pass http://10.0.0.1/; }
  }
  server {
    listen 8080;
    location / { proxy_pass http://10.0.0.2/; }
  }
}
"#;
    let router = compile(input);
    let key = ListenKey { addr: IpAddr::V4(0), port: 8080, ssl: false };
    let hit = match_route(&router, &key, "whatever", "/").expect("no default");
    assert_eq!(upstream_of(&hit), "http://10.0.0.1/");
}

#[test]
fn locations_without_targets_are_dropped() {
    let http = Http {
        servers: vec![Server {
            server_names: vec![],
            locations: vec![Location {
                matcher: LocationMatcher::Prefix("/".to_string()),
                directives: vec![],
            }],
            listens: vec![Listen {
                addr: IpAddr::V4(0),
                port: 80,
                ssl: false,
                default_server: false,
            }],
            tls: None,
        }],
        keepalive_timeout: "60s".to_string(),
        tcp_nodelay: Switch::On,
    };
    let router = CompiledRouter::from_http(&http);
    let key = ListenKey { addr: IpAddr::V4(0), port: 80, ssl: false };
    assert!(match_route(&router, &key, "any", "/").is_none());
}

#[test]
fn later_registration_wins_name_collisions() {
    let input = r#"
http {
  server {
    listen 8080;
    server_name shared.test;
    location / { proxy_pass http://10.0.0.1/; }
  }
  server {
    listen 8080;
    server_name SHARED.test;
    location / { proxy_pass http://10.0.0.2/; }
  }
}
"#;
    let router = compile(input);
    let key = ListenKey { addr: IpAddr::V4(0), port: 8080, ssl: false };
    let hit = match_route(&router, &key, "shared.test", "/").expect("unreachable");
    assert_eq!(upstream_of(&hit), "http://10.0.0.2/");
}

#[test]
fn plain_longest_prefix_lets_regexes_run() {
    let locations = vec![
        loc(CompiledMatcher::PreferPrefix("/a".to_string()), "prefer_short"),
        loc(CompiledMatcher::Prefix("/ab".to_string()), "plain_long"),
        loc(
            CompiledMatcher::Regex { case_insensitive: false, pattern: "b$".to_string() },
            "regex",
        ),
    ];
    // The longest matching prefix is the plain one, so the regexes run.
    assert_eq!(select_location(&locations, "/ab"), Some(2));
    // No regex match: the remembered longest prefix is the fallback.
    assert_eq!(select_location(&locations, "/abc"), Some(1));
}

#[test]
fn prefer_prefix_winner_short_circuits_regexes() {
    let locations = vec![
        loc(CompiledMatcher::PreferPrefix("/a".to_string()), "prefer"),
        loc(
            CompiledMatcher::Regex { case_insensitive: false, pattern: "x$".to_string() },
            "regex",
        ),
    ];
    // The longest matching prefix carries the prefer marker, so the regex
    // is never consulted even though it would match.
    assert_eq!(select_location(&locations, "/ax"), Some(0));
}

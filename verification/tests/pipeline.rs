//! End-to-end tests of the lexer, parser, include resolver and lowering.

use ngxora::ast::{Ast, Node};
use ngxora::ir::{IpAddr, Ir, LocationDirective, LocationMatcher, PemSource, Switch};
use ngxora::lexer::{Token, TokenType};
use ngxora::resolve::{IncludeFile, IncludeResolver};
use ngxora::transform::parse_listen_directives;

#[test]
fn tokenizes_simple_block_and_comment() {
    let input = "server { listen 80; # comment\n}";
    let tokens = Token::tokenize(input);
    let kinds: Vec<_> = tokens.into_iter().map(|t| t.kind).collect();

    assert_eq!(
        kinds,
        vec![
            TokenType::Ident,
            TokenType::LBrace,
            TokenType::Ident,
            TokenType::Ident,
            TokenType::Semicolon,
            TokenType::RBrace,
        ]
    );
}

#[test]
fn tokenizer_tracks_lines_and_lexemes() {
    let input = "a b\n# gone\nc;";
    let tokens = Token::tokenize(input);
    assert_eq!(tokens.len(), 4);
    assert_eq!(tokens[0].lexeme, "a");
    assert_eq!(tokens[0].number_line, 1);
    assert_eq!(tokens[1].lexeme, "b");
    assert_eq!(tokens[1].number_line, 1);
    assert_eq!(tokens[2].lexeme, "c");
    assert_eq!(tokens[2].number_line, 3);
    assert_eq!(tokens[3].kind, TokenType::Semicolon);
    assert_eq!(tokens[2].len, 1);
}

#[test]
fn parses_golden_conf() {
    let input = "http {\n    server {\n        listen 80;\n        server_name example.com;\n    }\n}\n";
    let ast = Ast::parse_config(input).unwrap();

    let expected = Ast {
        items: vec![Node::block(
            "http".to_string(),
            vec![],
            vec![Node::block(
                "server".to_string(),
                vec![],
                vec![
                    Node::directive("listen".to_string(), vec!["80".to_string()]),
                    Node::directive("server_name".to_string(), vec!["example.com".to_string()]),
                ],
            )],
        )],
    };

    assert_eq!(ast, expected);
}

#[test]
fn errors_on_unexpected_rbrace_top_level() {
    let err = Ast::parse_config("}").unwrap_err();
    assert!(err.message.contains("unexpected"));
}

#[test]
fn errors_on_unterminated_block() {
    let err = Ast::parse_config("server {").unwrap_err();
    assert!(err.message.contains("unexpected EOF"));
}

#[test]
fn resolves_include_directive() {
    let input = "http { include inner.conf; }";
    let ast = Ast::parse_config(input).unwrap();
    let mut resolver = IncludeResolver::new(&ast);
    assert_eq!(resolver.includes_files.len(), 1);
    assert_eq!(resolver.includes_files[0].path, "inner.conf");
    resolver.includes_files[0].text = "server { listen 8081; }".to_string();
    let resolved = resolver.resolve(&ast).unwrap();

    let expected = Ast {
        items: vec![Node::block(
            "http".to_string(),
            vec![],
            vec![Node::block(
                "server".to_string(),
                vec![],
                vec![Node::directive("listen".to_string(), vec!["8081".to_string()])],
            )],
        )],
    };

    assert_eq!(resolved, expected);
}

#[test]
fn resolve_is_identity_without_includes() {
    let input = "http { server { listen 80; } }";
    let ast = Ast::parse_config(input).unwrap();
    let again = Ast::parse_config(input).unwrap();
    let resolver = IncludeResolver::new(&ast);
    assert!(resolver.includes_files.is_empty());
    let resolved = resolver.resolve(&ast).unwrap();
    assert_eq!(resolved, again);
}

#[test]
fn resolve_reports_missing_file() {
    let input = "http { include missing.conf; }";
    let ast = Ast::parse_config(input).unwrap();
    let resolver = IncludeResolver { includes_files: vec![] };
    let err = resolver.resolve(&ast).unwrap_err();
    assert!(err.message.contains("missing.conf"));
}

#[test]
fn resolve_rejects_include_cycles() {
    let input = "include a.conf;";
    let ast = Ast::parse_config(input).unwrap();
    let resolver = IncludeResolver {
        includes_files: vec![IncludeFile {
            path: "a.conf".to_string(),
            text: "include a.conf;".to_string(),
        }],
    };
    let err = resolver.resolve(&ast).unwrap_err();
    assert!(err.message.contains("cycle"));
}

#[test]
fn resolves_nested_includes() {
    let input = "include a.conf;";
    let ast = Ast::parse_config(input).unwrap();
    let resolver = IncludeResolver {
        includes_files: vec![
            IncludeFile { path: "a.conf".to_string(), text: "include b.conf; x 1;".to_string() },
            IncludeFile { path: "b.conf".to_string(), text: "y 2;".to_string() },
        ],
    };
    let resolved = resolver.resolve(&ast).unwrap();
    let expected = Ast {
        items: vec![
            Node::directive("y".to_string(), vec!["2".to_string()]),
            Node::directive("x".to_string(), vec!["1".to_string()]),
        ],
    };
    assert_eq!(resolved, expected);
}

#[test]
fn from_ast_parses_basic_http() {
    let input = r#"
http {
  keepalive_timeout 30s;
  tcp_nodelay off;
  server {
    listen 443 ssl default_server;
    server_name example.com www.example.com;
    location / {
      proxy_pass http://127.0.0.1:8080;
    }
  }
}
"#;
    let ast = Ast::parse_config(input).unwrap();
    let ir = Ir::from_ast(&ast).expect("from_ast failed");

    let http = ir.http.expect("http missing");
    assert_eq!(http.keepalive_timeout, "30s");
    assert_eq!(http.tcp_nodelay, Switch::Off);
    assert_eq!(http.servers.len(), 1);

    let server = &http.servers[0];
    assert_eq!(
        server.server_names,
        vec!["example.com".to_string(), "www.example.com".to_string()]
    );
    assert_eq!(server.listens.len(), 1);
    assert_eq!(server.listens[0].port, 443);
    assert_eq!(server.listens[0].addr, IpAddr::V4(0));
    assert!(server.listens[0].ssl);
    assert!(server.listens[0].default_server);

    assert_eq!(server.locations.len(), 1);
    let location = &server.locations[0];
    assert_eq!(location.matcher, LocationMatcher::Prefix("/".to_string()));
    assert_eq!(
        location.directives,
        vec![LocationDirective::ProxyPass(
            url::Url::parse("http://127.0.0.1:8080").unwrap().to_string()
        )]
    );
}

#[test]
fn proxy_pass_urls_are_normalized() {
    let input = "http { server { listen 80; location / { proxy_pass http://EXAMPLE.com/Path; } } }";
    let ast = Ast::parse_config(input).unwrap();
    let ir = Ir::from_ast(&ast).unwrap();
    let http = ir.http.unwrap();
    let loc = &http.servers[0].locations[0];
    match &loc.directives[0] {
        LocationDirective::ProxyPass(u) => {
            assert_eq!(u, "http://example.com/Path");
        }
        other => panic!("unexpected directive {:?}", other),
    }
}

#[test]
fn parse_listen_interpretation_table() {
    let args = |xs: &[&str]| xs.iter().map(|s| s.to_string()).collect::<Vec<_>>();

    let l = parse_listen_directives(&args(&["80"])).unwrap();
    assert_eq!((l.addr, l.port, l.ssl, l.default_server), (IpAddr::V4(0), 80, false, false));

    let l = parse_listen_directives(&args(&["127.0.0.1:8080"])).unwrap();
    assert_eq!((l.addr, l.port), (IpAddr::V4(0x7F00_0001), 8080));

    let l = parse_listen_directives(&args(&["*:9000"])).unwrap();
    assert_eq!((l.addr, l.port), (IpAddr::V4(0), 9000));

    assert!(parse_listen_directives(&args(&["unix:/tmp/s.sock"])).is_err());

    let l = parse_listen_directives(&args(&["443", "ssl", "default_server"])).unwrap();
    assert_eq!((l.port, l.ssl, l.default_server), (443, true, true));

    assert!(parse_listen_directives(&args(&["80", "bogus"])).is_err());
    assert!(parse_listen_directives(&args(&[])).is_err());
    assert!(parse_listen_directives(&args(&["70000"])).is_err());
    assert!(parse_listen_directives(&args(&["01.2.3.4:80"])).is_err());
}

#[test]
fn malformed_inputs_fail_closed() {
    let bad_switch = "http { tcp_nodelay maybe; }";
    let ast = Ast::parse_config(bad_switch).unwrap();
    let err = Ir::from_ast(&ast).unwrap_err();
    assert!(err.message.contains("on|off"));

    assert!(Ast::parse_config("server {").is_err());

    let unknown = "http { nonsense 1; }";
    let ast = Ast::parse_config(unknown).unwrap();
    assert!(Ir::from_ast(&ast).unwrap_err().message.contains("nonsense"));

    let bad_url = "http { server { listen 80; location / { proxy_pass not_a_url; } } }";
    let ast = Ast::parse_config(bad_url).unwrap();
    assert!(Ir::from_ast(&ast).unwrap_err().message.contains("URL"));

    let nested = "http { server { listen 80; location / { inner { } } } }";
    let ast = Ast::parse_config(nested).unwrap();
    assert!(Ir::from_ast(&ast).is_err());
}

#[test]
fn location_matcher_forms() {
    let input = "http { server { listen 80; \
        location = /x { proxy_pass http://a/; } \
        location ~ p1 { proxy_pass http://a/; } \
        location ~* p2 { proxy_pass http://a/; } \
        location ^~ /img { proxy_pass http://a/; } \
        location @fallback { proxy_pass http://a/; } \
        location /pre { proxy_pass http://a/; } } }";
    let ast = Ast::parse_config(input).unwrap();
    let ir = Ir::from_ast(&ast).unwrap();
    let locations = &ir.http.unwrap().servers[0].locations;
    assert_eq!(locations[0].matcher, LocationMatcher::Exact("/x".to_string()));
    assert_eq!(
        locations[1].matcher,
        LocationMatcher::Regex { case_insensitive: false, pattern: "p1".to_string() }
    );
    assert_eq!(
        locations[2].matcher,
        LocationMatcher::Regex { case_insensitive: true, pattern: "p2".to_string() }
    );
    assert_eq!(locations[3].matcher, LocationMatcher::PreferPrefix("/img".to_string()));
    assert_eq!(locations[4].matcher, LocationMatcher::Named("fallback".to_string()));
    assert_eq!(locations[5].matcher, LocationMatcher::Prefix("/pre".to_string()));
}

#[test]
fn tls_directives_build_an_identity() {
    let input = "http { server { listen 80; ssl_certificate cert.pem; ssl_certificate_key key.pem; } }";
    let ast = Ast::parse_config(input).unwrap();
    let ir = Ir::from_ast(&ast).unwrap();
    let server = &ir.http.unwrap().servers[0];
    let tls = server.tls.as_ref().expect("tls missing");
    assert_eq!(tls.cert, PemSource::Path("cert.pem".to_string()));
    assert_eq!(tls.key, PemSource::Path("key.pem".to_string()));
}

#[test]
fn render_then_parse_round_trips() {
    let input = "http { keepalive_timeout 30s; server { listen 443 ssl; location / { proxy_pass http://a/; } } }";
    let ast = Ast::parse_config(input).unwrap();
    let text = ast.to_text();
    let again = Ast::parse_config(&text).unwrap();
    assert_eq!(ast, again);
}

#[test]
fn rendering_is_parseable_text() {
    let ast = Ast {
        items: vec![
            Node::directive("worker".to_string(), vec!["4".to_string()]),
            Node::block(
                "http".to_string(),
                vec![],
                vec![Node::directive("tcp_nodelay".to_string(), vec!["on".to_string()])],
            ),
        ],
    };
    let text = ast.to_text();
    assert_eq!(text, "worker 4 ; http { tcp_nodelay on ; } ");
    assert_eq!(Ast::parse_config(&text).unwrap(), ast);
}

#[test]
fn parse_listen_accepts_bracketed_ipv6() {
    let args = |xs: &[&str]| xs.iter().map(|s| s.to_string()).collect::<Vec<_>>();

    let l = parse_listen_directives(&args(&["[::1]:8080"])).unwrap();
    assert_eq!((l.addr, l.port), (IpAddr::V6(1), 8080));

    let l = parse_listen_directives(&args(&["[2001:db8::2]:443", "ssl"])).unwrap();
    assert_eq!(l.addr, IpAddr::V6(0x2001_0db8_0000_0000_0000_0000_0000_0002));
    assert_eq!((l.port, l.ssl), (443, true));

    let l = parse_listen_directives(&args(&["[1:2:3:4:5:6:7:8]:80"])).unwrap();
    assert_eq!(l.addr, IpAddr::V6(0x0001_0002_0003_0004_0005_0006_0007_0008));

    assert!(parse_listen_directives(&args(&["[::1]"])).is_err());
    assert!(parse_listen_directives(&args(&["[1::2::3]:80"])).is_err());
    assert!(parse_listen_directives(&args(&["[1:2:3]:80"])).is_err());
}

#[test]
fn parse_listen_accepts_zone_ids_and_embedded_ipv4() {
    let args = |xs: &[&str]| xs.iter().map(|s| s.to_string()).collect::<Vec<_>>();

    // A numeric zone identifier is validated, then discarded: the address
    // value carries no scope, as with the socket-address `ip()` projection.
    let l = parse_listen_directives(&args(&["[fe80::1%1]:80"])).unwrap();
    assert_eq!(l.addr, IpAddr::V6(0xfe80_0000_0000_0000_0000_0000_0000_0001));
    assert_eq!(l.port, 80);
    let with_zone = parse_listen_directives(&args(&["[fe80::1%4294967295]:80"])).unwrap();
    let without_zone = parse_listen_directives(&args(&["[fe80::1]:80"])).unwrap();
    assert_eq!(with_zone, without_zone);

    assert!(parse_listen_directives(&args(&["[fe80::1%]:80"])).is_err());
    assert!(parse_listen_directives(&args(&["[fe80::1%eth0]:80"])).is_err());
    assert!(parse_listen_directives(&args(&["[fe80::1%4294967296]:80"])).is_err());

    // A trailing dotted quad stands for the last two groups.
    let l = parse_listen_directives(&args(&["[::ffff:1.2.3.4]:80"])).unwrap();
    assert_eq!(l.addr, IpAddr::V6(0x0000_0000_0000_0000_0000_ffff_0102_0304));
    let l = parse_listen_directives(&args(&["[1:2:3:4:5:6:1.2.3.4]:80"])).unwrap();
    assert_eq!(l.addr, IpAddr::V6(0x0001_0002_0003_0004_0005_0006_0102_0304));

    // The dotted quad may not come before the compression, and must leave
    // room for its two groups.
    assert!(parse_listen_directives(&args(&["[1.2.3.4::]:80"])).is_err());
    assert!(parse_listen_directives(&args(&["[1:2:3:4:5:6:7:1.2.3.4]:80"])).is_err());
}

#[test]
fn pem_sources_join_like_paths() {
    let parts = |xs: &[&str]| xs.iter().map(|s| s.to_string()).collect::<Vec<String>>();

    let ps = PemSource::new(&parts(&["certs", "site.pem"]), false).unwrap();
    assert_eq!(ps, PemSource::Path("certs/site.pem".to_string()));

    // An absolute component replaces what was accumulated before it.
    let ps = PemSource::new(&parts(&["certs", "/etc/tls", "key.pem"]), false).unwrap();
    assert_eq!(ps, PemSource::Path("/etc/tls/key.pem".to_string()));
}

#[test]
fn unicode_whitespace_delimits_identifiers() {
    let input = "a\u{a0}b\u{2003}c;";
    let tokens = Token::tokenize(input);
    let lexemes: Vec<_> = tokens.iter().map(|t| t.lexeme.as_str()).collect();
    assert_eq!(lexemes, vec!["a", "b", "c", ";"]);
}

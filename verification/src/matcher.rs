//! Match engine: given a request's listening endpoint, host and path,
//! selects the compiled location that nginx-equivalent precedence rules
//! select — an exact match wins outright; otherwise the longest matching
//! literal prefix (prefer-prefix and plain alike) is remembered, and it
//! short-circuits the regexes only when it is a prefer-prefix location;
//! else the regexes are tried in declaration order, and the remembered
//! prefix is the fallback. Named locations are never selected here.

use vstd::prelude::*;

use crate::ir::SpecMatcher;
use crate::text::lower_chars;
use crate::router::{
    clocs_view, find_listener, find_named, CompiledLocation, CompiledMatcher, CompiledRouter,
    ListenKey, ServerRoutes, SpecCompiledLocation, SpecVirtualHostRoutes,
};
use crate::text::{is_prefix_of, str_eq, str_starts_with};

verus! {

/// What the regex crate decides for a pattern, a case-insensitivity flag and
/// a text: whether the compiled pattern matches the text; a pattern the
/// crate rejects matches nothing.
pub uninterp spec fn regex_match(case_insensitive: bool, pattern: Seq<char>, text: Seq<char>) -> bool;

/// Relies on regex::RegexBuilder and Regex::is_match: the outcome depends on
/// the pattern, the flag and the text alone; a pattern the crate rejects is
/// treated as matching nothing.
#[verifier::external_body]
fn regex_is_match(case_insensitive: bool, pattern: &str, text: &str) -> (r: bool)
    ensures
        r == regex_match(case_insensitive, pattern@, text@),
{
    match regex::RegexBuilder::new(pattern).case_insensitive(case_insensitive).build() {
        Ok(re) => re.is_match(text),
        Err(_) => false,
    }
}

/// Index of the first exact location equal to `path`, or -1.
pub open spec fn find_exact(locs: Seq<SpecCompiledLocation>, path: Seq<char>) -> int
    decreases locs.len(),
{
    if locs.len() == 0 {
        -1
    } else if locs[0].matcher matches SpecMatcher::Exact(p) && p == path {
        0
    } else {
        let r = find_exact(locs.drop_first(), path);
        if r < 0 {
            -1
        } else {
            r + 1
        }
    }
}

/// Index of the first regex location whose pattern matches `path`, or -1.
pub open spec fn find_regex(locs: Seq<SpecCompiledLocation>, path: Seq<char>) -> int
    decreases locs.len(),
{
    if locs.len() == 0 {
        -1
    } else if locs[0].matcher matches SpecMatcher::Regex { case_insensitive, pattern }
        && regex_match(case_insensitive, pattern, path) {
        0
    } else {
        let r = find_regex(locs.drop_first(), path);
        if r < 0 {
            -1
        } else {
            r + 1
        }
    }
}

/// The best prefix location for `path` among the prefix locations of both
/// kinds: the longest matching literal prefix, the earliest on a tie. The
/// result is the index and the prefix length.
pub open spec fn best_prefix_from(locs: Seq<SpecCompiledLocation>, path: Seq<char>) -> Option<
    (int, int),
>
    decreases locs.len(),
{
    if locs.len() == 0 {
        None
    } else {
        let rest = match best_prefix_from(locs.drop_first(), path) {
            Some((ri, rl)) => Some(((ri + 1) as int, rl)),
            None => None,
        };
        let cur: Option<(int, int)> = match locs[0].matcher {
            SpecMatcher::PreferPrefix(p) => if is_prefix_of(p, path) {
                Some((0, p.len() as int))
            } else {
                None
            },
            SpecMatcher::Prefix(p) => if is_prefix_of(p, path) {
                Some((0, p.len() as int))
            } else {
                None
            },
            _ => None,
        };
        match (cur, rest) {
            (Some((ci, cl)), Some((ri, rl))) => if cl >= rl {
                Some((ci, cl))
            } else {
                Some((ri, rl))
            },
            (Some((ci, cl)), None) => Some((ci, cl)),
            (None, r) => r,
        }
    }
}

/// The location the precedence rules select for `path`, as an index into
/// `locs`: an exact match wins; otherwise the longest matching prefix
/// short-circuits the regexes when it is a prefer-prefix location; the
/// regexes are tried in declaration order; the longest prefix (then plain)
/// is the fallback.
pub open spec fn spec_select(locs: Seq<SpecCompiledLocation>, path: Seq<char>) -> Option<int> {
    let e = find_exact(locs, path);
    if e >= 0 {
        Some(e)
    } else {
        match best_prefix_from(locs, path) {
            Some((i, l)) => {
                if locs[i].matcher matches SpecMatcher::PreferPrefix(_) {
                    Some(i)
                } else {
                    let r = find_regex(locs, path);
                    if r >= 0 {
                        Some(r)
                    } else {
                        Some(i)
                    }
                }
            },
            None => {
                let r = find_regex(locs, path);
                if r >= 0 {
                    Some(r)
                } else {
                    None
                }
            },
        }
    }
}

/// The route selected for a request: the virtual-host table of the
/// listener, then the lower-cased host (or the default), then location
/// precedence over the path.
pub open spec fn spec_match_route(
    m: Map<ListenKey, SpecVirtualHostRoutes>,
    key: ListenKey,
    host: Seq<char>,
    path: Seq<char>,
) -> Option<SpecCompiledLocation> {
    if !m.contains_key(key) {
        None
    } else {
        let vhr = m[key];
        let routes = if vhr.named.contains_key(lower_chars(host)) {
            Some(vhr.named[lower_chars(host)])
        } else {
            vhr.default
        };
        match routes {
            None => None,
            Some(sr) => match spec_select(sr.locations, path) {
                Some(i) => Some(sr.locations[i]),
                None => None,
            },
        }
    }
}

#[verifier::loop_isolation(false)]
fn find_exact_exec(locs: &Vec<CompiledLocation>, path: &str) -> (r: Option<usize>)
    ensures
        match r {
            Some(i) => i < locs@.len() && find_exact(clocs_view(locs@), path@) == i as int,
            None => find_exact(clocs_view(locs@), path@) < 0,
        },
{
    let ghost lv = clocs_view(locs@);
    let n = locs.len();
    let mut i: usize = 0;
    proof {
        assert(lv.skip(0) =~= lv);
    }
    while i < n
        invariant
            i <= n,
            find_exact(lv, path@) == (if find_exact(lv.skip(i as int), path@) < 0 {
                -1 as int
            } else {
                find_exact(lv.skip(i as int), path@) + i
            }),
        decreases n - i,
    {
        proof {
            assert(lv.skip(i as int)[0] == lv[i as int]);
            assert(lv.skip(i as int).drop_first() =~= lv.skip(i + 1));
        }
        let hit = match &locs[i].matcher {
            CompiledMatcher::Exact(p) => str_eq(p.as_str(), path),
            _ => false,
        };
        if hit {
            return Some(i);
        }
        i = i + 1;
    }
    proof {
        assert(lv.skip(n as int).len() == 0);
    }
    None
}

#[verifier::loop_isolation(false)]
fn find_regex_exec(locs: &Vec<CompiledLocation>, path: &str) -> (r: Option<usize>)
    ensures
        match r {
            Some(i) => i < locs@.len() && find_regex(clocs_view(locs@), path@) == i as int,
            None => find_regex(clocs_view(locs@), path@) < 0,
        },
{
    let ghost lv = clocs_view(locs@);
    let n = locs.len();
    let mut i: usize = 0;
    proof {
        assert(lv.skip(0) =~= lv);
    }
    while i < n
        invariant
            i <= n,
            find_regex(lv, path@) == (if find_regex(lv.skip(i as int), path@) < 0 {
                -1 as int
            } else {
                find_regex(lv.skip(i as int), path@) + i
            }),
        decreases n - i,
    {
        proof {
            assert(lv.skip(i as int)[0] == lv[i as int]);
            assert(lv.skip(i as int).drop_first() =~= lv.skip(i + 1));
        }
        let hit = match &locs[i].matcher {
            CompiledMatcher::Regex { case_insensitive, pattern } => regex_is_match(
                *case_insensitive,
                pattern.as_str(),
                path,
            ),
            _ => false,
        };
        if hit {
            return Some(i);
        }
        i = i + 1;
    }
    proof {
        assert(lv.skip(n as int).len() == 0);
    }
    None
}

#[verifier::loop_isolation(false)]
fn best_prefix_exec(locs: &Vec<CompiledLocation>, path: &str) -> (r: Option<(usize, usize)>)
    ensures
        match r {
            Some((i, l)) => i < locs@.len() && best_prefix_from(clocs_view(locs@), path@) == Some(
                (i as int, l as int),
            ),
            None => best_prefix_from(clocs_view(locs@), path@) is None,
        },
{
    let ghost lv = clocs_view(locs@);
    let n = locs.len();
    let mut best: Option<(usize, usize)> = None;
    proof {
        assert(lv.skip(n as int).len() == 0);
    }
    let mut i: usize = n;
    while i > 0
        invariant
            i <= n,
            match best {
                Some((bi, bl)) => i <= bi < n && best_prefix_from(lv.skip(i as int), path@)
                    == Some((bi - i, bl as int)),
                None => best_prefix_from(lv.skip(i as int), path@) is None,
            },
        decreases i,
    {
        proof {
            assert(lv.skip(i - 1)[0] == lv[i - 1]);
            assert(lv.skip(i - 1).drop_first() =~= lv.skip(i as int));
        }
        let cur: Option<usize> = match &locs[i - 1].matcher {
            CompiledMatcher::PreferPrefix(p) => {
                if str_starts_with(path, p.as_str()) {
                    Some(p.as_str().unicode_len())
                } else {
                    None
                }
            },
            CompiledMatcher::Prefix(p) => {
                if str_starts_with(path, p.as_str()) {
                    Some(p.as_str().unicode_len())
                } else {
                    None
                }
            },
            _ => None,
        };
        match cur {
            Some(cl) => {
                let take_cur = match best {
                    Some((_, bl)) => cl >= bl,
                    None => true,
                };
                if take_cur {
                    best = Some((i - 1, cl));
                }
            },
            None => {},
        }
        i = i - 1;
    }
    proof {
        assert(lv.skip(0) =~= lv);
    }
    best
}

/// Selects the location the precedence rules pick for `path`, as an index
/// into `locs`.
pub fn select_location(locs: &Vec<CompiledLocation>, path: &str) -> (r: Option<usize>)
    ensures
        match r {
            Some(i) => i < locs@.len() && spec_select(clocs_view(locs@), path@) == Some(i as int),
            None => spec_select(clocs_view(locs@), path@) is None,
        },
{
    match find_exact_exec(locs, path) {
        Some(i) => Some(i),
        None => {
            match best_prefix_exec(locs, path) {
                Some((i, _)) => {
                    let winner_prefers = match &locs[i].matcher {
                        CompiledMatcher::PreferPrefix(_) => true,
                        _ => false,
                    };
                    proof {
                        assert(clocs_view(locs@)[i as int] == locs@[i as int]@);
                    }
                    if winner_prefers {
                        Some(i)
                    } else {
                        match find_regex_exec(locs, path) {
                            Some(r) => Some(r),
                            None => Some(i),
                        }
                    }
                },
                None => {
                    match find_regex_exec(locs, path) {
                        Some(r) => Some(r),
                        None => None,
                    }
                },
            }
        },
    }
}

/// Resolves one request against the routing table.
pub fn match_route(router: &CompiledRouter, key: &ListenKey, host: &str, path: &str) -> (r: Option<
    CompiledLocation,
>)
    ensures
        match r {
            Some(c) => spec_match_route(router@, *key, host@, path@) == Some(c@),
            None => spec_match_route(router@, *key, host@, path@) is None,
        },
{
    let vhr = match find_listener(&router.listeners, key) {
        Some(v) => v,
        None => {
            return None;
        },
    };
    let lowered = crate::text::ascii_lowercase(host);
    let routes: &ServerRoutes = match find_named(&vhr.named, lowered.as_str()) {
        Some(sr) => sr,
        None => {
            match &vhr.default {
                Some(d) => d,
                None => {
                    return None;
                },
            }
        },
    };
    match select_location(&routes.locations, path) {
        Some(i) => {
            let c = crate::router::clone_compiled_location(&routes.locations[i]);
            Some(c)
        },
        None => None,
    }
}

} // verus!

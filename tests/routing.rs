use route_map::text::{normalize_path, remove_first_chars, replace_all_chars, split_segments, trim_chars};
use route_map::trie::{Node, ParamSpec, Route, RouteError, RouteKind, RouteMap};

fn param(full: &str, name: &str) -> ParamSpec {
    ParamSpec { full: full.to_string(), name: name.to_string() }
}

fn http(path: &str, params: Vec<ParamSpec>, methods: &[(&str, u32)]) -> Route<u32> {
    Route {
        path: path.to_string(),
        path_parameters: params,
        kind: RouteKind::Http(methods.iter().map(|(m, h)| (m.to_string(), *h)).collect()),
    }
}

fn handler(node: &Node<u32>, key: &str) -> Option<u32> {
    node.handlers.as_ref().and_then(|hs| hs.iter().rev().find(|(k, _)| k == key).map(|(_, h)| *h))
}

fn chars(s: &str) -> Vec<char> {
    s.chars().collect()
}

fn text(v: &[char]) -> String {
    v.iter().collect()
}

#[test]
fn plain_route_lookup_exact_path() {
    let mut map = RouteMap::new();
    let n = map.add_route(http("/health", vec![], &[("GET", 7)])).unwrap();
    assert!(map.is_plain_route("/health"));
    let m = map.parse_scope_to_route("/health").unwrap();
    assert_eq!(m.node, n);
    assert!(m.path_params.is_empty());
    assert_eq!(m.rewritten_path, None);
    assert_eq!(handler(map.node(m.node), "GET"), Some(7));
    assert!(!m.is_asgi);
}

#[test]
fn parameterized_route_captures_segments() {
    let mut map = RouteMap::new();
    let route = http(
        "/users/{user_id:int}/posts/{post_id:str}",
        vec![param("user_id:int", "user_id"), param("post_id:str", "post_id")],
        &[("GET", 1)],
    );
    let n = map.add_route(route).unwrap();
    let m = map.parse_scope_to_route("/users/12/posts/hello-world").unwrap();
    assert_eq!(m.node, n);
    assert_eq!(m.path_params, vec!["12".to_string(), "hello-world".to_string()]);
    assert_eq!(handler(map.node(n), "GET"), Some(1));
    assert!(!map.is_plain_route("/users/{user_id:int}/posts/{post_id:str}"));
}

#[test]
fn conflicting_parameter_names_fail() {
    let mut map = RouteMap::new();
    map.add_route(http("/items/{item_id:int}", vec![param("item_id:int", "item_id")], &[("GET", 1)]))
        .unwrap();
    let r = map.add_route(http("/items/{id:int}", vec![param("id:int", "id")], &[("POST", 2)]));
    assert_eq!(r, Err(RouteError::ConflictingPathParameters));
    let m = map.parse_scope_to_route("/items/3").unwrap();
    assert_eq!(handler(map.node(m.node), "POST"), None);
}

#[test]
fn add_routes_stops_at_conflict() {
    let mut map = RouteMap::new();
    let routes = vec![
        http("/a/{x:int}", vec![param("x:int", "x")], &[("GET", 1)]),
        http("/a/{y:int}", vec![param("y:int", "y")], &[("GET", 2)]),
    ];
    assert_eq!(map.add_routes(routes), Err(RouteError::ConflictingPathParameters));
    let mut ok = RouteMap::new();
    let routes = vec![
        http("/a/{x:int}", vec![param("x:int", "x")], &[("GET", 1)]),
        http("/a/{x:int}", vec![param("x:int", "x")], &[("PUT", 2)]),
    ];
    assert_eq!(ok.add_routes(routes), Ok(()));
    let m = ok.parse_scope_to_route("/a/5").unwrap();
    assert_eq!(handler(ok.node(m.node), "GET"), Some(1));
    assert_eq!(handler(ok.node(m.node), "PUT"), Some(2));
}

#[test]
fn literal_child_wins_over_wildcard() {
    let mut map = RouteMap::new();
    let user = http("/users/{id:int}", vec![param("id:int", "id")], &[("GET", 1)]);
    map.add_route(user).unwrap();
    let n_me = map.add_route(http("/users/me", vec![], &[("GET", 2)])).unwrap();
    let m = map.parse_scope_to_route("/users/me").unwrap();
    assert_eq!(m.node, n_me);
    assert!(m.path_params.is_empty());
    assert_eq!(handler(map.node(m.node), "GET"), Some(2));
    let other = map.parse_scope_to_route("/users/42").unwrap();
    assert_eq!(other.path_params, vec!["42".to_string()]);
    assert_eq!(handler(map.node(other.node), "GET"), Some(1));
}

#[test]
fn literal_segment_wins_inside_the_tree() {
    let mut map = RouteMap::new();
    let by_id = http("/users/{id}/x", vec![param("id", "id")], &[("GET", 1)]);
    let by_me = http("/users/me/{tab}", vec![param("tab", "tab")], &[("GET", 2)]);
    let n_id = map.add_route(by_id).unwrap();
    let n_me = map.add_route(by_me).unwrap();
    let m = map.parse_scope_to_route("/users/me/x").unwrap();
    assert_eq!(m.node, n_me);
    assert_eq!(m.path_params, vec!["x".to_string()]);
    let o = map.parse_scope_to_route("/users/you/x").unwrap();
    assert_eq!(o.node, n_id);
    assert_eq!(o.path_params, vec!["you".to_string()]);
}

#[test]
fn trailing_slash_is_insignificant() {
    let mut map = RouteMap::new();
    map.add_route(http("/foo", vec![], &[("GET", 3)])).unwrap();
    let a = map.parse_scope_to_route("/foo").unwrap();
    let b = map.parse_scope_to_route("/foo/").unwrap();
    let c = map.parse_scope_to_route("  /foo/ ").unwrap();
    assert_eq!(a.node, b.node);
    assert_eq!(a.node, c.node);
    assert_eq!(text(&normalize_path("/")), "/");
    assert_eq!(text(&normalize_path("/foo/")), "/foo");
    assert_eq!(text(&normalize_path(" \t/foo \n")), "/foo");
}

#[test]
fn root_route_is_kept_as_slash() {
    let mut map = RouteMap::new();
    let n = map.add_route(http("/", vec![], &[("GET", 9)])).unwrap();
    let m = map.parse_scope_to_route("/").unwrap();
    assert_eq!(m.node, n);
    assert_eq!(handler(map.node(m.node), "GET"), Some(9));
}

#[test]
fn unregistered_path_is_not_found() {
    let mut map = RouteMap::new();
    map.add_route(http("/users/{id:int}", vec![param("id:int", "id")], &[("GET", 1)])).unwrap();
    assert_eq!(map.parse_scope_to_route("/orders/1").err(), Some(RouteError::NotFound));
    assert_eq!(map.parse_scope_to_route("/users/1/extra").err(), Some(RouteError::NotFound));
    assert_eq!(RouteMap::<u32>::new().parse_scope_to_route("/x").err(), Some(RouteError::NotFound));
}

#[test]
fn node_without_handlers_is_not_found() {
    let mut map = RouteMap::new();
    map.add_route(http("/a/{x:int}/b", vec![param("x:int", "x")], &[("GET", 1)])).unwrap();
    assert_eq!(map.parse_scope_to_route("/a/1").err(), Some(RouteError::NotFound));
    assert!(map.parse_scope_to_route("/a/1/b").is_ok());
}

#[test]
fn static_mount_rewrites_path() {
    let mut map = RouteMap::new();
    map.add_static_path("/assets");
    let route = Route { path: "/assets".to_string(), path_parameters: vec![], kind: RouteKind::Asgi(5u32) };
    let n = map.add_route(route).unwrap();
    assert_eq!(map.node(n).static_path.as_deref(), Some("/assets"));
    assert!(map.node(n).is_asgi);
    let m = map.parse_scope_to_route("/assets/app.js").unwrap();
    assert_eq!(m.node, n);
    assert!(m.is_asgi);
    assert_eq!(m.rewritten_path.as_deref(), Some("/app.js"));
    assert_eq!(handler(map.node(n), "asgi"), Some(5));
}

#[test]
fn static_mount_removes_only_first_occurrence() {
    let mut map = RouteMap::new();
    map.add_static_path("/assets");
    let route = Route { path: "/assets".to_string(), path_parameters: vec![], kind: RouteKind::Asgi(5u32) };
    map.add_route(route).unwrap();
    let m = map.parse_scope_to_route("/assets/assets/x.js").unwrap();
    assert_eq!(m.rewritten_path.as_deref(), Some("/assets/x.js"));
    let exact = map.parse_scope_to_route("/assets").unwrap();
    assert_eq!(exact.rewritten_path, None);
}

#[test]
fn root_static_mount_does_not_rewrite() {
    let mut map = RouteMap::new();
    map.add_static_path("/");
    let route = Route { path: "/".to_string(), path_parameters: vec![], kind: RouteKind::Asgi(1u32) };
    let n = map.add_route(route).unwrap();
    assert_eq!(n, 0);
    let m = map.parse_scope_to_route("/index.html").unwrap();
    assert_eq!(m.node, 0);
    assert_eq!(m.rewritten_path, None);
}

#[test]
fn items_example_end_to_end() {
    let mut map = RouteMap::new();
    let route = http("/items/{item_id}", vec![param("item_id", "item_id")], &[("GET", 42)]);
    let n = map.add_route(route).unwrap();
    let m = map.parse_scope_to_route("/items/42").unwrap();
    assert_eq!(m.node, n);
    assert_eq!(handler(map.node(m.node), "GET"), Some(42));
    assert_eq!(m.path_params, vec!["42".to_string()]);
    let decl = map.node(n).path_parameters.as_ref().unwrap();
    assert_eq!(decl[0].name, "item_id");
}

#[test]
fn braced_placeholder_leaves_no_wildcard() {
    let mut map = RouteMap::new();
    let route = http("/items/{item_id}", vec![param("{item_id}", "item_id")], &[("GET", 42)]);
    let n = map.add_route(route).unwrap();
    assert_eq!(map.traverse_to_dict("/items"), Ok(n));
    assert_eq!(map.parse_scope_to_route("/items/42").err(), Some(RouteError::NotFound));
}

#[test]
fn websocket_route_uses_websocket_key() {
    let mut map = RouteMap::new();
    let route = Route { path: "/ws".to_string(), path_parameters: vec![], kind: RouteKind::WebSocket(8u32) };
    let n = map.add_route(route).unwrap();
    assert_eq!(handler(map.node(n), "websocket"), Some(8));
    assert!(!map.node(n).is_asgi);
}

#[test]
fn later_method_handler_replaces_earlier() {
    let mut map = RouteMap::new();
    map.add_route(http("/x", vec![], &[("GET", 1)])).unwrap();
    let n = map.add_route(http("/x", vec![], &[("GET", 2), ("POST", 3)])).unwrap();
    assert_eq!(handler(map.node(n), "GET"), Some(2));
    assert_eq!(handler(map.node(n), "POST"), Some(3));
    assert_eq!(map.node(n).handlers.as_ref().unwrap().len(), 2);
}

#[test]
fn traverse_to_dict_finds_nodes() {
    let mut map = RouteMap::new();
    let n = map.add_route(http("/a/{x:int}/b", vec![param("x:int", "x")], &[("GET", 1)])).unwrap();
    let p = map.add_route(http("/plain", vec![], &[("GET", 2)])).unwrap();
    assert_eq!(map.traverse_to_dict("/a/anything/b"), Ok(n));
    assert_eq!(map.traverse_to_dict("/plain"), Ok(p));
    assert_eq!(map.traverse_to_dict("/zzz"), Err(RouteError::NotFound));
    let a = map.traverse_to_dict("/a").unwrap();
    let keys: Vec<&str> = map.node(a).children.iter().map(|(k, _)| k.as_str()).collect();
    assert_eq!(keys, vec!["*"]);
    assert_eq!(map.node_count(), 5);
}

#[test]
fn static_and_plain_sets() {
    let mut map = RouteMap::<u32>::new();
    assert!(!map.is_static_path("/s"));
    map.add_static_path("/s");
    map.add_static_path("/s");
    assert!(map.is_static_path("/s"));
    assert!(map.remove_static_path("/s"));
    assert!(!map.is_static_path("/s"));
    assert!(!map.remove_static_path("/s"));
    map.add_plain_route("/p");
    assert!(map.is_plain_route("/p"));
    assert!(map.remove_plain_route("/p"));
    assert!(!map.is_plain_route("/p"));
    assert!(!map.remove_plain_route("/p"));
}

#[test]
fn plain_route_without_node_is_not_found() {
    let mut map = RouteMap::<u32>::new();
    map.add_plain_route("/ghost");
    assert_eq!(map.parse_scope_to_route("/ghost").err(), Some(RouteError::NotFound));
}

#[test]
fn splitting_drops_empty_segments() {
    let segs = split_segments(&chars("//a/bc///d/"));
    assert_eq!(segs, vec!["a".to_string(), "bc".to_string(), "d".to_string()]);
    assert!(split_segments(&chars("/")).is_empty());
    assert!(split_segments(&chars("")).is_empty());
    assert_eq!(split_segments(&chars("héllo/wörld")), vec!["héllo".to_string(), "wörld".to_string()]);
}

#[test]
fn text_helpers() {
    assert_eq!(text(&trim_chars(&chars("\u{3000} x y \u{a0}"))), "x y");
    assert_eq!(text(&replace_all_chars(&chars("/a/{}/b/{}"), &chars("{}"), &chars("*"))), "/a/*/b/*");
    assert_eq!(text(&replace_all_chars(&chars("aaa"), &chars("aa"), &chars("b"))), "ba");
    assert_eq!(text(&replace_all_chars(&chars("abc"), &chars(""), &chars(""))), "abc");
    assert_eq!(text(&remove_first_chars(&chars("/x/ab/ab"), &chars("ab"))), "/x//ab");
    assert_eq!(text(&remove_first_chars(&chars("/x"), &chars("zz"))), "/x");
}

#[test]
fn default_map_is_empty() {
    let map: RouteMap<u32> = RouteMap::default();
    assert_eq!(map.node_count(), 1);
    assert!(map.node(0).children.is_empty());
    assert_eq!(map.parse_scope_to_route("/").err(), Some(RouteError::NotFound));
}

#[test]
fn conflict_leaves_map_unchanged() {
    let mut map = RouteMap::new();
    map.add_route(http("/a/{x:int}", vec![param("x:int", "x")], &[("GET", 1)])).unwrap();
    let before = map.node_count();
    let r = map.add_route(http("/a/{y:int}", vec![param("y:int", "y")], &[("GET", 2)]));
    assert_eq!(r, Err(RouteError::ConflictingPathParameters));
    assert_eq!(map.node_count(), before);
    let m = map.parse_scope_to_route("/a/1").unwrap();
    assert_eq!(handler(map.node(m.node), "GET"), Some(1));
    assert!(!map.is_plain_route("/a/{y:int}"));
}

#[test]
fn parameter_order_matters_for_conflicts() {
    let mut map = RouteMap::new();
    let a = http("/p/{a}/{b}", vec![param("a", "a"), param("b", "b")], &[("GET", 1)]);
    let b = http("/p/{b}/{a}", vec![param("b", "b"), param("a", "a")], &[("GET", 2)]);
    map.add_route(a).unwrap();
    assert_eq!(map.add_route(b), Err(RouteError::ConflictingPathParameters));
}

#[test]
fn plain_route_key_is_not_a_segment_key() {
    let mut map = RouteMap::new();
    let n = map.add_route(http("health", vec![], &[("GET", 1)])).unwrap();
    assert_eq!(map.parse_scope_to_route("/health").err(), Some(RouteError::NotFound));
    assert_eq!(map.parse_scope_to_route("health").unwrap().node, n);
    assert!(map.node(0).children.is_empty());
}

#[test]
fn empty_root_snapshot() {
    let map = RouteMap::<u32>::new();
    let n = map.traverse_to_dict("/").unwrap();
    assert_eq!(n, 0);
    let root = map.node(n);
    assert!(root.children.is_empty());
    assert!(root.handlers.is_none());
    assert!(root.path_parameters.is_none());
    assert!(root.static_path.is_none());
    assert!(!root.is_asgi);
    assert_eq!(map.traverse_to_dict("/missing"), Err(RouteError::NotFound));
}

#[test]
fn batch_registration_scenarios() {
    let mut map = RouteMap::new();
    map.add_static_path("/assets");
    let routes = vec![
        http("/users/{id:int}", vec![param("id:int", "id")], &[("GET", 1)]),
        http("/users/me", vec![], &[("GET", 2)]),
        http("/", vec![], &[("GET", 3)]),
        Route { path: "/assets".to_string(), path_parameters: vec![], kind: RouteKind::Asgi(4u32) },
    ];
    assert_eq!(map.add_routes(routes), Ok(()));
    let me = map.parse_scope_to_route("/users/me").unwrap();
    assert_eq!(handler(map.node(me.node), "GET"), Some(2));
    assert!(me.path_params.is_empty());
    let root = map.parse_scope_to_route("/").unwrap();
    assert_eq!(handler(map.node(root.node), "GET"), Some(3));
    let asset = map.parse_scope_to_route("/assets/app.js").unwrap();
    assert_eq!(asset.rewritten_path.as_deref(), Some("/app.js"));
    assert!(asset.is_asgi);
    let users = map.traverse_to_dict("/users").unwrap();
    let keys: Vec<&str> = map.node(users).children.iter().map(|(k, _)| k.as_str()).collect();
    assert_eq!(keys, vec!["*"]);
    assert!(map.node(users).handlers.is_none());
    let seven = map.traverse_to_dict("/users/7").unwrap();
    assert_eq!(handler(map.node(seven), "GET"), Some(1));
    assert_eq!(map.node(seven).path_parameters.as_ref().unwrap()[0].full, "id:int");
}

use std::cell::RefCell;
use std::rc::Rc;

use http_dispatch::http::{Request, Response};
use http_dispatch::router::{NotFound, Router};
use http_dispatch::server::Server;
use http_dispatch::session::{Middleware, Session, Signal};

type Log = Rc<RefCell<Vec<String>>>;

struct Step {
    name: String,
    signal: Signal,
    log: Log,
}

impl Middleware for Step {
    fn step(&self, request: &Request, mut response: Response) -> (Signal, Response) {
        self.log.borrow_mut().push(self.name.clone());
        response.write(self.name.as_bytes());
        if let Some(params) = &request.params {
            for (k, v) in params {
                response.header(k.clone(), v.clone());
            }
        }
        (self.signal, response)
    }

    fn call(&self, request: &Request, response: &mut Response) -> Signal {
        let handed = std::mem::replace(response, Response::new());
        let (signal, left) = self.step(request, handed);
        *response = left;
        signal
    }
}

fn step(name: &str, signal: Signal, log: &Log) -> Step {
    Step { name: name.to_string(), signal, log: log.clone() }
}

fn request(method: &str, route: &str) -> Request {
    Request::new(method.to_string(), route.to_string(), Vec::new())
}

fn api_server(log: &Log) -> Server<Step> {
    let mut router = Router::new();
    router.route(
        "GET",
        "/users/:id",
        Session::new(vec![step("auth", Signal::Continue, log), step("loadUser", Signal::Continue, log)]),
    );
    let mut server = Server::new();
    server.register("/api", router);
    server
}

#[test]
fn api_user_route_binds_id_and_runs_both_handlers() {
    let log: Log = Rc::new(RefCell::new(Vec::new()));
    let server = api_server(&log);
    let found = server
        .find_route(&"GET".to_string(), &"/api/users/42".to_string())
        .ok()
        .unwrap();
    assert_eq!(found.params, vec![("id".to_string(), "42".to_string())]);
    assert_eq!(server.session(&found).chain.len(), 2);

    let mut req = request("GET", "/api/users/42");
    let mut res = Response::new();
    let signals = server.dispatch(&mut req, &mut res).ok().unwrap();
    assert_eq!(signals, vec![Signal::Continue, Signal::Continue]);
    assert_eq!(*log.borrow(), vec!["auth".to_string(), "loadUser".to_string()]);
    assert_eq!(req.params, Some(vec![("id".to_string(), "42".to_string())]));
    assert_eq!(res.body, b"authloadUser".to_vec());
    assert_eq!(res.status, 200);
    // each handler saw the bound parameter, and loadUser got the response
    // as auth left it
    let id = ("id".to_string(), "42".to_string());
    assert_eq!(res.headers, vec![id.clone(), id]);
}

#[test]
fn unknown_prefix_is_not_found() {
    let log: Log = Rc::new(RefCell::new(Vec::new()));
    let server = api_server(&log);
    let r = server.find_route(&"GET".to_string(), &"/unknown/path".to_string());
    assert_eq!(r.err(), Some(NotFound::NoMount));

    let mut req = request("GET", "/unknown/path");
    let mut res = Response::new();
    assert_eq!(server.dispatch(&mut req, &mut res).err(), Some(NotFound::NoMount));
    assert!(log.borrow().is_empty());
    assert!(res.body.is_empty());
    assert_eq!(req.params, None);
}

#[test]
fn overlapping_prefixes_pick_the_longest() {
    let log: Log = Rc::new(RefCell::new(Vec::new()));
    let mut root = Router::new();
    root.route("GET", "/api/users/:id", Session::new(vec![step("root", Signal::Continue, &log)]));
    let mut api = Router::new();
    api.route("GET", "/users/:id", Session::new(vec![step("api", Signal::Continue, &log)]));
    let mut server = Server::new();
    server.register("", root);
    server.register("/api", api);

    let found = server
        .find_route(&"GET".to_string(), &"/api/users/42".to_string())
        .ok()
        .unwrap();
    assert_eq!(found.mount, 1);
    assert_eq!(server.inner.mounts[found.mount].prefix, "/api");

    let mut req = request("GET", "/api/users/42");
    let mut res = Response::new();
    server.dispatch(&mut req, &mut res).ok().unwrap();
    assert_eq!(*log.borrow(), vec!["api".to_string()]);

    // the same holds with the mounts registered the other way round
    let log2: Log = Rc::new(RefCell::new(Vec::new()));
    let mut root = Router::new();
    root.route("GET", "/api/users/:id", Session::new(vec![step("root", Signal::Continue, &log2)]));
    let mut api = Router::new();
    api.route("GET", "/users/:id", Session::new(vec![step("api", Signal::Continue, &log2)]));
    let mut server = Server::new();
    server.register("/api", api);
    server.register("/", root);
    let mut req = request("GET", "/api/users/42");
    let mut res = Response::new();
    server.dispatch(&mut req, &mut res).ok().unwrap();
    assert_eq!(*log2.borrow(), vec!["api".to_string()]);
}

#[test]
fn stop_ends_the_chain() {
    let log: Log = Rc::new(RefCell::new(Vec::new()));
    let mut router = Router::new();
    router.route(
        "GET",
        "/x",
        Session::new(vec![
            step("a", Signal::Continue, &log),
            step("b", Signal::Stop, &log),
            step("c", Signal::Continue, &log),
        ]),
    );
    let mut server = Server::new();
    server.register("/", router);
    let mut req = request("GET", "/x");
    let mut res = Response::new();
    let signals = server.dispatch(&mut req, &mut res).ok().unwrap();
    assert_eq!(signals, vec![Signal::Continue, Signal::Stop]);
    assert_eq!(*log.borrow(), vec!["a".to_string(), "b".to_string()]);
    assert_eq!(res.body, b"ab".to_vec());
    assert_eq!(req.params, None);
}

#[test]
fn first_handler_stopping_runs_no_other() {
    let log: Log = Rc::new(RefCell::new(Vec::new()));
    let mut router = Router::new();
    router.route(
        "POST",
        "/x",
        Session::new(vec![step("a", Signal::Stop, &log), step("b", Signal::Continue, &log)]),
    );
    let mut server = Server::new();
    server.register("", router);
    let mut req = request("POST", "/x");
    let mut res = Response::new();
    let signals = server.dispatch(&mut req, &mut res).ok().unwrap();
    assert_eq!(signals, vec![Signal::Stop]);
    assert_eq!(*log.borrow(), vec!["a".to_string()]);
}

#[test]
fn all_continue_runs_every_handler_in_order() {
    let log: Log = Rc::new(RefCell::new(Vec::new()));
    let names = ["one", "two", "three", "four"];
    let chain: Vec<Step> = names.iter().map(|n| step(n, Signal::Continue, &log)).collect();
    let mut router = Router::new();
    router.route("GET", "/", Session::new(chain));
    let mut server = Server::new();
    server.register("", router);
    let mut req = request("GET", "/");
    let mut res = Response::new();
    let signals = server.dispatch(&mut req, &mut res).ok().unwrap();
    assert_eq!(signals.len(), 4);
    let expected: Vec<String> = names.iter().map(|n| n.to_string()).collect();
    assert_eq!(*log.borrow(), expected);
}

#[test]
fn empty_chain_runs_nothing() {
    let log: Log = Rc::new(RefCell::new(Vec::new()));
    let mut router: Router<Step> = Router::new();
    router.route("GET", "/empty", Session::new(Vec::new()));
    let mut server = Server::new();
    server.register("", router);
    let mut req = request("GET", "/empty");
    let mut res = Response::new();
    let signals = server.dispatch(&mut req, &mut res).ok().unwrap();
    assert!(signals.is_empty());
    assert!(log.borrow().is_empty());
}

#[test]
fn method_mismatch_and_path_mismatch_differ() {
    let log: Log = Rc::new(RefCell::new(Vec::new()));
    let server = api_server(&log);
    let r = server.find_route(&"POST".to_string(), &"/api/users/42".to_string());
    assert_eq!(r.err(), Some(NotFound::NoMethod));
    let r = server.find_route(&"GET".to_string(), &"/api/posts/42".to_string());
    assert_eq!(r.err(), Some(NotFound::NoPath));
    // full-path matching: no extra or missing segments
    let r = server.find_route(&"GET".to_string(), &"/api/users/42/extra".to_string());
    assert_eq!(r.err(), Some(NotFound::NoPath));
    let r = server.find_route(&"GET".to_string(), &"/api/users".to_string());
    assert_eq!(r.err(), Some(NotFound::NoPath));
    // a parameter does not bind an empty segment
    let r = server.find_route(&"GET".to_string(), &"/api/users/".to_string());
    assert_eq!(r.err(), Some(NotFound::NoPath));
    // the longest prefix is chosen even when its router has no route
    let mut req = request("GET", "/api/nothing");
    let mut res = Response::new();
    assert_eq!(server.dispatch(&mut req, &mut res).err(), Some(NotFound::NoPath));
    assert!(log.borrow().is_empty());
}

#[test]
fn several_parameters_bind_in_pattern_order() {
    let log: Log = Rc::new(RefCell::new(Vec::new()));
    let mut router = Router::new();
    router.route(
        "GET",
        "/orgs/:org/repos/:repo",
        Session::new(vec![step("h", Signal::Continue, &log)]),
    );
    let mut server = Server::new();
    server.register("/v1", router);
    let found = server
        .find_route(&"GET".to_string(), &"/v1/orgs/acme/repos/tools".to_string())
        .ok()
        .unwrap();
    assert_eq!(
        found.params,
        vec![
            ("org".to_string(), "acme".to_string()),
            ("repo".to_string(), "tools".to_string()),
        ]
    );
}

#[test]
fn route_without_parameters_leaves_params_unset() {
    let log: Log = Rc::new(RefCell::new(Vec::new()));
    let mut router = Router::new();
    router.route("GET", "/health", Session::new(vec![step("h", Signal::Continue, &log)]));
    let mut server = Server::new();
    server.register("", router);
    let found = server.find_route(&"GET".to_string(), &"/health".to_string()).ok().unwrap();
    assert!(found.params.is_empty());
    let mut req = request("GET", "/health");
    let mut res = Response::new();
    server.dispatch(&mut req, &mut res).ok().unwrap();
    assert_eq!(req.params, None);
}

#[test]
fn first_registered_route_wins_among_matches() {
    let log: Log = Rc::new(RefCell::new(Vec::new()));
    let mut router = Router::new();
    router.route("GET", "/users/:id", Session::new(vec![step("by_id", Signal::Continue, &log)]));
    router.route("GET", "/users/me", Session::new(vec![step("me", Signal::Continue, &log)]));
    let found = router.find_route(&"GET".to_string(), &"/users/me".to_string()).ok().unwrap();
    assert_eq!(found.route, 0);
    assert_eq!(found.params, vec![("id".to_string(), "me".to_string())]);
}

#[test]
fn rerouting_a_key_replaces_its_chain() {
    let log: Log = Rc::new(RefCell::new(Vec::new()));
    let mut router = Router::new();
    router.route("GET", "/a", Session::new(vec![step("old", Signal::Continue, &log)]));
    router.route("POST", "/a", Session::new(vec![step("post", Signal::Continue, &log)]));
    router.route("GET", "/a", Session::new(vec![step("new", Signal::Continue, &log)]));
    assert_eq!(router.routes.len(), 2);
    assert_eq!(router.routes[0].session.chain[0].name, "new");
    assert_eq!(router.routes[1].method, "POST");
}

#[test]
fn reregistering_a_prefix_replaces_its_router() {
    let log: Log = Rc::new(RefCell::new(Vec::new()));
    let mut first = Router::new();
    first.route("GET", "/x", Session::new(vec![step("first", Signal::Continue, &log)]));
    let mut second = Router::new();
    second.route("GET", "/x", Session::new(vec![step("second", Signal::Continue, &log)]));
    let mut server = Server::new();
    server.register("/", first);
    server.register("", second);
    assert_eq!(server.inner.mounts.len(), 1);
    assert_eq!(server.inner.mounts[0].prefix, "");
    let mut req = request("GET", "/x");
    let mut res = Response::new();
    server.dispatch(&mut req, &mut res).ok().unwrap();
    assert_eq!(*log.borrow(), vec!["second".to_string()]);
}

#[test]
fn requests_on_one_server_do_not_share_state() {
    let log: Log = Rc::new(RefCell::new(Vec::new()));
    let server = api_server(&log);
    let mut req1 = request("GET", "/api/users/1");
    let mut req2 = request("GET", "/api/users/2");
    let mut res1 = Response::new();
    let mut res2 = Response::new();
    server.dispatch(&mut req1, &mut res1).ok().unwrap();
    server.dispatch(&mut req2, &mut res2).ok().unwrap();
    assert_eq!(req1.params, Some(vec![("id".to_string(), "1".to_string())]));
    assert_eq!(req2.params, Some(vec![("id".to_string(), "2".to_string())]));
    // both handlers of the chain copy the bound parameter into a header
    let one = ("id".to_string(), "1".to_string());
    let two = ("id".to_string(), "2".to_string());
    assert_eq!(res1.headers, vec![one.clone(), one]);
    assert_eq!(res2.headers, vec![two.clone(), two]);
}

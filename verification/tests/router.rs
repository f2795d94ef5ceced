use webhook_flows::dispatch;
use webhook_flows::get;
use webhook_flows::merge_params;
use webhook_flows::post;
use webhook_flows::resolve;
use webhook_flows::Handler;
use webhook_flows::LookupError;
use webhook_flows::Method;
use webhook_flows::MethodSet;
use webhook_flows::QueryMap;
use webhook_flows::RegisterError;
use webhook_flows::Request;
use webhook_flows::RouteError;
use webhook_flows::RouteTable;

/// A response sink that records which handler ran and what it saw.
struct Rec {
    events: Vec<String>,
}

impl Rec {
    fn new() -> Rec {
        Rec { events: Vec::new() }
    }
}

/// A handler that records its name and the query value under `key`.
struct Probe {
    name: &'static str,
    key: &'static str,
}

impl Handler<Rec> for Probe {
    fn handle(
        &self,
        _headers: &Vec<(String, String)>,
        query: &QueryMap,
        _body: &Vec<u8>,
        sink: &mut Rec,
    ) {
        let seen = match query.get(self.key) {
            Some(v) => v.clone(),
            None => String::from("<absent>"),
        };
        sink.events.push(format!("{}:{}", self.name, seen));
    }
}

fn probe(name: &'static str, key: &'static str) -> Probe {
    Probe { name, key }
}

#[test]
fn lookup_static_exact() {
    let mut table: RouteTable<Probe> = RouteTable::new();
    table.register("/health", vec![get(probe("h", "x"))]).unwrap();
    table.register("/users/list", vec![get(probe("u", "x"))]).unwrap();

    let (i, params) = table.lookup("/health").unwrap();
    assert_eq!(i, 0);
    assert!(params.is_empty());

    let (i, params) = table.lookup("/users/list").unwrap();
    assert_eq!(i, 1);
    assert!(params.is_empty());
}

#[test]
fn lookup_captures_parameter() {
    let mut table: RouteTable<Probe> = RouteTable::new();
    table.register("/users/:id", vec![get(probe("h", "id"))]).unwrap();

    let (i, params) = table.lookup("/users/42").unwrap();
    assert_eq!(i, 0);
    assert_eq!(params, vec![(String::from("id"), String::from("42"))]);

    let (_, params) = table.lookup("/users/alice").unwrap();
    assert_eq!(params, vec![(String::from("id"), String::from("alice"))]);
}

#[test]
fn lookup_captures_several_parameters_in_order() {
    let mut table: RouteTable<Probe> = RouteTable::new();
    table.register("/repos/:owner/tree/:branch", vec![get(probe("h", "owner"))]).unwrap();

    let (_, params) = table.lookup("/repos/octo/tree/main").unwrap();
    assert_eq!(
        params,
        vec![
            (String::from("owner"), String::from("octo")),
            (String::from("branch"), String::from("main")),
        ]
    );
}

#[test]
fn lookup_not_found_whatever_the_table_holds() {
    let empty: RouteTable<Probe> = RouteTable::new();
    assert_eq!(empty.lookup("/orders/42"), Err(LookupError::NotFound));

    let mut table: RouteTable<Probe> = RouteTable::new();
    table.register("/users/:id", vec![get(probe("h", "id"))]).unwrap();
    table.register("/health", vec![get(probe("h2", "x"))]).unwrap();
    table.register("/a/b/c", vec![get(probe("h3", "x"))]).unwrap();
    assert_eq!(table.lookup("/orders/42"), Err(LookupError::NotFound));
    assert_eq!(table.lookup("/users/42/extra"), Err(LookupError::NotFound));
    assert_eq!(table.lookup("/users"), Err(LookupError::NotFound));
}

#[test]
fn lookup_is_deterministic() {
    let mut table: RouteTable<Probe> = RouteTable::new();
    table.register("/users/:id", vec![get(probe("h", "id"))]).unwrap();
    table.register("/users/admin", vec![get(probe("a", "x"))]).unwrap();

    let first = table.lookup("/users/42");
    let second = table.lookup("/users/42");
    assert_eq!(first, second);

    let first = table.lookup("/nope");
    let second = table.lookup("/nope");
    assert_eq!(first, second);
}

#[test]
fn static_segment_beats_parameter() {
    let mut table: RouteTable<Probe> = RouteTable::new();
    table.register("/users/:id", vec![get(probe("param", "id"))]).unwrap();
    table.register("/users/admin", vec![get(probe("static", "x"))]).unwrap();

    let (i, params) = table.lookup("/users/admin").unwrap();
    assert_eq!(i, 1);
    assert!(params.is_empty());

    let (i, params) = table.lookup("/users/42").unwrap();
    assert_eq!(i, 0);
    assert_eq!(params, vec![(String::from("id"), String::from("42"))]);
}

#[test]
fn parameter_route_accepts_literal_of_sibling_prefix() {
    let mut table: RouteTable<Probe> = RouteTable::new();
    table.register("/a/b", vec![get(probe("ab", "x"))]).unwrap();
    table.register("/:x/c", vec![get(probe("xc", "x"))]).unwrap();

    let (i, params) = table.lookup("/a/c").unwrap();
    assert_eq!(i, 1);
    assert_eq!(params, vec![(String::from("x"), String::from("a"))]);

    let (i, _) = table.lookup("/a/b").unwrap();
    assert_eq!(i, 0);
}

#[test]
fn register_rejects_duplicate_pattern() {
    let mut table: RouteTable<Probe> = RouteTable::new();
    table.register("/users/:id", vec![get(probe("h1", "id"))]).unwrap();
    let r = table.register("/users/:id", vec![post(probe("h2", "id"))]);
    assert_eq!(r, Err(RegisterError::Conflict));
}

#[test]
fn register_rejects_renamed_parameter_at_same_position() {
    let mut table: RouteTable<Probe> = RouteTable::new();
    table.register("/users/:id", vec![get(probe("h1", "id"))]).unwrap();
    let r = table.register("/users/:name", vec![get(probe("h2", "name"))]);
    assert_eq!(r, Err(RegisterError::Conflict));

    let mut table: RouteTable<Probe> = RouteTable::new();
    table.register("/:x/a", vec![get(probe("h1", "x"))]).unwrap();
    let r = table.register("/:y/b", vec![get(probe("h2", "y"))]);
    assert_eq!(r, Err(RegisterError::Conflict));
}

#[test]
fn register_accepts_disambiguated_patterns() {
    let mut table: RouteTable<Probe> = RouteTable::new();
    table.register("/users/:id", vec![get(probe("h1", "id"))]).unwrap();
    table.register("/users/admin", vec![get(probe("h2", "x"))]).unwrap();
    table.register("/users", vec![get(probe("h3", "x"))]).unwrap();
    table.register("/users/:id/posts", vec![get(probe("h4", "id"))]).unwrap();
}

#[test]
fn distinct_paths_for_trailing_slash() {
    let mut table: RouteTable<Probe> = RouteTable::new();
    table.register("/users", vec![get(probe("bare", "x"))]).unwrap();
    table.register("/users/", vec![get(probe("slashed", "x"))]).unwrap();

    let (i, _) = table.lookup("/users").unwrap();
    assert_eq!(i, 0);
    let (i, _) = table.lookup("/users/").unwrap();
    assert_eq!(i, 1);
}

#[test]
fn empty_pattern_matches_empty_path_only() {
    let mut table: RouteTable<Probe> = RouteTable::new();
    table.register("", vec![get(probe("root", "x"))]).unwrap();
    let (i, params) = table.lookup("").unwrap();
    assert_eq!(i, 0);
    assert!(params.is_empty());
    assert_eq!(table.lookup("/"), Err(LookupError::NotFound));
}

#[test]
fn query_map_insert_and_get() {
    let mut q = QueryMap::new();
    assert!(q.get("k").is_none());
    q.insert(String::from("k"), String::from("1"));
    assert_eq!(q.get("k").unwrap(), "1");
    q.insert(String::from("k"), String::from("2"));
    assert_eq!(q.get("k").unwrap(), "2");
    q.insert(String::from("other"), String::from("3"));
    assert_eq!(q.get("k").unwrap(), "2");
    assert_eq!(q.get("other").unwrap(), "3");
    assert!(q.get("absent").is_none());
}

#[test]
fn merge_lets_path_parameter_overwrite_query_key() {
    let mut q = QueryMap::new();
    q.insert(String::from("id"), String::from("from-query"));
    q.insert(String::from("keep"), String::from("kept"));

    let params = vec![(String::from("id"), String::from("42"))];
    let merged = merge_params(q, &params);

    assert_eq!(merged.get("id").unwrap(), "42");
    assert_eq!(merged.get("keep").unwrap(), "kept");
}

#[test]
fn dispatch_invokes_the_matching_handler() {
    let mut table: RouteTable<Probe> = RouteTable::new();
    table.register("/users/:id", vec![get(probe("h1", "id"))]).unwrap();

    let mut sink = Rec::new();
    let r = dispatch(
        &table,
        Request::new(Method::Get, vec![], String::from("/users/42"), QueryMap::new(), vec![]),
        &mut sink,
    );
    assert_eq!(r, Ok(()));
    assert_eq!(sink.events, vec![String::from("h1:42")]);
}

#[test]
fn dispatch_method_not_allowed_is_distinct_from_not_found() {
    let mut table: RouteTable<Probe> = RouteTable::new();
    table.register("/users/:id", vec![get(probe("h1", "id"))]).unwrap();

    let mut sink = Rec::new();
    let r = dispatch(
        &table,
        Request::new(Method::Post, vec![], String::from("/users/42"), QueryMap::new(), vec![]),
        &mut sink,
    );
    assert_eq!(r, Err(RouteError::MethodNotAllowed));

    let r = dispatch(
        &table,
        Request::new(Method::Get, vec![], String::from("/orders/42"), QueryMap::new(), vec![]),
        &mut sink,
    );
    assert_eq!(r, Err(RouteError::NotFound));
    assert!(sink.events.is_empty());
}

#[test]
fn dispatch_runs_at_most_one_handler() {
    let mut table: RouteTable<Probe> = RouteTable::new();
    table
        .register("/things", vec![get(probe("getter", "x")), post(probe("poster", "x"))])
        .unwrap();

    let mut sink = Rec::new();
    let r = dispatch(
        &table,
        Request::new(Method::Get, vec![], String::from("/things"), QueryMap::new(), vec![]),
        &mut sink,
    );
    assert_eq!(r, Ok(()));
    assert_eq!(sink.events, vec![String::from("getter:<absent>")]);

    let mut sink = Rec::new();
    let r = dispatch(
        &table,
        Request::new(Method::Post, vec![], String::from("/things"), QueryMap::new(), vec![]),
        &mut sink,
    );
    assert_eq!(r, Ok(()));
    assert_eq!(sink.events, vec![String::from("poster:<absent>")]);
}

#[test]
fn dispatch_picks_first_binding_whose_set_holds_the_method() {
    let mut table: RouteTable<Probe> = RouteTable::new();
    let both = MethodSet::from_methods(vec![Method::Get, Method::Post]);
    table
        .register(
            "/things",
            vec![(MethodSet::single(Method::Put), probe("putter", "x")), (both, probe(
                "both",
                "x",
            )), (MethodSet::single(Method::Get), probe("late", "x"))],
        )
        .unwrap();

    let mut sink = Rec::new();
    dispatch(
        &table,
        Request::new(Method::Get, vec![], String::from("/things"), QueryMap::new(), vec![]),
        &mut sink,
    )
        .unwrap();
    assert_eq!(sink.events, vec![String::from("both:<absent>")]);
}

#[test]
fn resolve_names_route_and_binding_without_running() {
    let mut table: RouteTable<Probe> = RouteTable::new();
    table.register("/health", vec![get(probe("h", "x"))]).unwrap();
    table
        .register("/users/:id", vec![post(probe("creator", "id")), get(probe("reader", "id"))])
        .unwrap();

    assert_eq!(resolve(&table, Method::Get, "/users/9"), Ok((1, 1)));
    assert_eq!(resolve(&table, Method::Post, "/users/9"), Ok((1, 0)));
    assert_eq!(resolve(&table, Method::Put, "/users/9"), Err(RouteError::MethodNotAllowed));
    assert_eq!(resolve(&table, Method::Get, "/gone"), Err(RouteError::NotFound));
}

#[test]
fn scenario_users_id_get() {
    let mut table: RouteTable<Probe> = RouteTable::new();
    table.register("/users/:id", vec![get(probe("h1", "id"))]).unwrap();

    let mut sink = Rec::new();
    let r = dispatch(
        &table,
        Request::new(Method::Get, vec![], String::from("/users/42"), QueryMap::new(), vec![]),
        &mut sink,
    );
    assert_eq!(r, Ok(()));
    assert_eq!(sink.events, vec![String::from("h1:42")]);

    let r = dispatch(
        &table,
        Request::new(Method::Post, vec![], String::from("/users/42"), QueryMap::new(), vec![]),
        &mut sink,
    );
    assert_eq!(r, Err(RouteError::MethodNotAllowed));

    let r = dispatch(
        &table,
        Request::new(Method::Get, vec![], String::from("/orders/42"), QueryMap::new(), vec![]),
        &mut sink,
    );
    assert_eq!(r, Err(RouteError::NotFound));
    assert_eq!(sink.events, vec![String::from("h1:42")]);
}

#[test]
fn handler_sees_headers_and_body_untouched() {
    struct EchoAll;
    impl Handler<Rec> for EchoAll {
        fn handle(
            &self,
            headers: &Vec<(String, String)>,
            _query: &QueryMap,
            body: &Vec<u8>,
            sink: &mut Rec,
        ) {
            sink.events.push(format!("{:?}|{:?}", headers, body));
        }
    }

    let mut table: RouteTable<EchoAll> = RouteTable::new();
    table.register("/echo", vec![get(EchoAll)]).unwrap();

    let headers = vec![
        (String::from("x-a"), String::from("1")),
        (String::from("x-a"), String::from("2")),
    ];
    let body = vec![1u8, 2u8, 3u8];
    let mut sink = Rec::new();
    let req = Request::new(
        Method::Get,
        headers.clone(),
        String::from("/echo"),
        QueryMap::new(),
        body.clone(),
    );
    dispatch(&table, req, &mut sink).unwrap();
    assert_eq!(sink.events, vec![format!("{:?}|{:?}", headers, body)]);
}

use vstd::prelude::*;
use crate::extract::{
    bind, bindings, decode_utf8, find_last, parse_i64, parse_int, parse_target, pair_views,
    percent_escapes_valid, percent_ok,
    last_value, url_target, utf8_decoded, PairView,
};
use crate::router::{
    lemma_join_injective, lemma_join_slash, lemma_selected_unique, rooted, selected, split_of, winner,
    RouteError, RouteMatch, RouteTable,
};
use crate::template::{copy_template, fits, join, outranks, path_ok, same_shape, template_view, texts, wf_template, SegView};

verus! {

/// An HTTP method. `Other` is any method outside the supported set.
#[derive(Debug, Clone, Copy, PartialEq, Eq, Structural)]
pub enum Method {
    Get,
    Post,
    Put,
    Patch,
    Delete,
    Other,
}

/// Whether a request of this method has its body read before the operation
/// runs: always for POST, PUT and PATCH; for DELETE only when the operation
/// declares a body; never for GET.
pub open spec fn reads_body(m: Method, takes_body: bool) -> bool {
    match m {
        Method::Post | Method::Put | Method::Patch => true,
        Method::Delete => takes_body,
        _ => false,
    }
}

/// Where a parameter comes from.
#[derive(Debug, Clone, Copy, PartialEq, Eq, Structural)]
pub enum ParamSource {
    Path,
    Query,
}

/// The type a parameter is coerced to.
#[derive(Debug, Clone, Copy, PartialEq, Eq, Structural)]
pub enum ValueKind {
    Text,
    Integer,
}

/// A declared parameter of an operation.
pub struct ParamDecl {
    pub name: String,
    pub source: ParamSource,
    pub required: bool,
    pub kind: ValueKind,
}

/// The tag of an outcome: an explicit status (`Http200`, `Http204`, ...) or
/// the contract's fallback.
#[derive(Debug, Clone, Copy, PartialEq, Eq, Structural)]
pub enum Tag {
    Status(u16),
    Default,
}

/// One endpoint of the contract.
pub struct Operation {
    pub method: Method,
    pub template: Vec<crate::template::Segment>,
    pub params: Vec<ParamDecl>,
    pub outcomes: Vec<Tag>,
    pub default_status: u16,
    pub takes_body: bool,
}

/// A typed argument handed to an operation.
#[derive(Debug, Clone, PartialEq, Eq)]
pub enum Arg {
    Absent,
    Text(String),
    Integer(i64),
}

/// Why the parameters of a request could not be extracted.
#[derive(Debug, Clone, Copy, PartialEq, Eq, Structural)]
pub enum ParamError {
    /// A required parameter is not in the request.
    Missing,
    /// A parameter's text does not coerce to its declared type.
    Malformed,
}

/// The raw text of a declared parameter: the path binding or the last query
/// pair with its name.
pub open spec fn raw_arg(d: ParamDecl, pb: Seq<PairView>, q: Seq<PairView>) -> Option<Seq<char>> {
    match d.source {
        ParamSource::Path => last_value(pb, d.name@),
        ParamSource::Query => last_value(q, d.name@),
    }
}

pub open spec fn arg_missing(d: ParamDecl, raw: Option<Seq<char>>) -> bool {
    raw is None && d.required
}

pub open spec fn arg_malformed(d: ParamDecl, raw: Option<Seq<char>>) -> bool {
    raw matches Some(t) && d.kind == ValueKind::Integer && parse_int(t) is None
}

/// The argument extracted for a declared parameter from its raw text.
pub open spec fn arg_fits(d: ParamDecl, raw: Option<Seq<char>>, a: Arg) -> bool {
    match raw {
        None => a is Absent,
        Some(t) => match d.kind {
            ValueKind::Text => a matches Arg::Text(s) && s@ == t,
            ValueKind::Integer => a matches Arg::Integer(v) && parse_int(t) == Some(v as int),
        },
    }
}

/// Every declared parameter can be extracted.
pub open spec fn args_ok(ds: Seq<ParamDecl>, pb: Seq<PairView>, q: Seq<PairView>) -> bool {
    forall|k: int| 0 <= k < ds.len() ==> !arg_missing(ds[k], raw_arg(ds[k], pb, q)) && !arg_malformed(
        ds[k],
        raw_arg(ds[k], pb, q),
    )
}

/// `args` are the arguments extracted for `ds`.
pub open spec fn args_fit(ds: Seq<ParamDecl>, pb: Seq<PairView>, q: Seq<PairView>, args: Seq<Arg>) -> bool {
    &&& args.len() == ds.len()
    &&& forall|k: int| 0 <= k < ds.len() ==> arg_fits(ds[k], raw_arg(ds[k], pb, q), #[trigger] args[k])
}

/// Extracts the declared parameters from the path bindings and the query
/// pairs, coercing each to its declared type.
pub fn extract_args(ds: &Vec<ParamDecl>, pb: &Vec<(String, String)>, q: &Vec<(String, String)>) -> (r:
    Result<Vec<Arg>, ParamError>)
    ensures
        (r is Ok) <==> args_ok(ds@, pair_views(pb@), pair_views(q@)),
        r matches Ok(args) ==> args_fit(ds@, pair_views(pb@), pair_views(q@), args@),
        r matches Err(ParamError::Missing) ==> exists|k: int|
            0 <= k < ds@.len() && arg_missing(ds@[k], #[trigger] raw_arg(ds@[k], pair_views(pb@), pair_views(q@))),
        r matches Err(ParamError::Malformed) ==> exists|k: int|
            0 <= k < ds@.len() && arg_malformed(ds@[k], #[trigger] raw_arg(ds@[k], pair_views(pb@), pair_views(q@))),
{
    let ghost pbv = pair_views(pb@);
    let ghost qv = pair_views(q@);
    let mut args: Vec<Arg> = Vec::new();
    let mut k: usize = 0;
    while k < ds.len()
        invariant
            pbv == pair_views(pb@),
            qv == pair_views(q@),
            k <= ds@.len(),
            args@.len() == k,
            forall|j: int| 0 <= j < k ==> !arg_missing(ds@[j], raw_arg(ds@[j], pbv, qv)) && !arg_malformed(ds@[j], raw_arg(ds@[j], pbv, qv)),
            forall|j: int| 0 <= j < k ==> arg_fits(ds@[j], raw_arg(ds@[j], pbv, qv), #[trigger] args@[j]),
        decreases ds@.len() - k,
    {
        let d = &ds[k];
        let raw = match d.source {
            ParamSource::Path => find_last(pb, &d.name),
            ParamSource::Query => find_last(q, &d.name),
        };
        let a = match raw {
            None => {
                if d.required {
                    return Err(ParamError::Missing);
                }
                Arg::Absent
            },
            Some(t) => match d.kind {
                ValueKind::Text => Arg::Text(t),
                ValueKind::Integer => match parse_i64(t.as_str()) {
                    Some(v) => Arg::Integer(v),
                    None => {
                        return Err(ParamError::Malformed);
                    },
                },
            },
        };
        args.push(a);
        k = k + 1;
    }
    Ok(args)
}

/// A response: a status code and a body.
pub struct Response {
    pub status: u16,
    pub body: String,
}

/// The body of an error response: a JSON object with a code and a message.
pub open spec fn error_text(status: u16) -> Seq<char> {
    if status == 400 {
        "{\"code\":400,\"message\":\"bad request\"}"@
    } else if status == 404 {
        "{\"code\":404,\"message\":\"path not found\"}"@
    } else if status == 405 {
        "{\"code\":405,\"message\":\"method not allowed\"}"@
    } else {
        "{\"code\":500,\"message\":\"internal error\"}"@
    }
}

/// An error response with its structured body.
pub fn error_response(status: u16) -> (r: Response)
    ensures
        r.status == status,
        r.body@ == error_text(status),
{
    let body = if status == 400 {
        "{\"code\":400,\"message\":\"bad request\"}".to_owned()
    } else if status == 404 {
        "{\"code\":404,\"message\":\"path not found\"}".to_owned()
    } else if status == 405 {
        "{\"code\":405,\"message\":\"method not allowed\"}".to_owned()
    } else {
        "{\"code\":500,\"message\":\"internal error\"}".to_owned()
    };
    Response { status, body }
}

/// What an operation returned: a tag and its serialized payload.
pub struct Outcome {
    pub tag: Tag,
    pub payload: String,
}

/// An encoded outcome: the response, and whether the outcome broke the
/// operation's declared set.
pub struct Encoded {
    pub response: Response,
    pub violation: bool,
}

/// The status that a declared tag stands for.
pub open spec fn tag_status(tag: Tag, default_status: u16) -> u16 {
    match tag {
        Tag::Status(n) => n,
        Tag::Default => default_status,
    }
}

/// Encodes an outcome of an operation. A declared tag gives its status and
/// the payload as body, except that a `204` has an empty body whatever the
/// payload; an undeclared tag gives a `500` and is flagged as a violation.
pub fn encode(op: &Operation, outcome: Outcome) -> (r: Encoded)
    ensures
        r.violation == !op.outcomes@.contains(outcome.tag),
        r.violation ==> r.response.status == 500 && r.response.body@ == error_text(500),
        !r.violation ==> r.response.status == tag_status(outcome.tag, op.default_status),
        !r.violation ==> r.response.body@ == if r.response.status == 204 {
            Seq::<char>::empty()
        } else {
            outcome.payload@
        },
{
    let mut i: usize = 0;
    let mut found = false;
    while i < op.outcomes.len()
        invariant
            i <= op.outcomes@.len(),
            found == exists|j: int| 0 <= j < i && op.outcomes@[j] == outcome.tag,
        decreases op.outcomes@.len() - i,
    {
        if op.outcomes[i] == outcome.tag {
            found = true;
        }
        i = i + 1;
    }
    if !found {
        assert(!op.outcomes@.contains(outcome.tag));
        return Encoded { response: error_response(500), violation: true };
    }
    let status = match outcome.tag {
        Tag::Status(n) => n,
        Tag::Default => op.default_status,
    };
    let body = if status == 204 {
        String::new()
    } else {
        outcome.payload
    };
    Encoded { response: Response { status, body }, violation: false }
}

/// The route tables of the supported methods.
struct Tables {
    get: RouteTable,
    post: RouteTable,
    put: RouteTable,
    patch: RouteTable,
    delete: RouteTable,
}

impl Tables {
    closed spec fn table(&self, m: Method) -> RouteTable {
        match m {
            Method::Get => self.get,
            Method::Post => self.post,
            Method::Put => self.put,
            Method::Patch => self.patch,
            _ => self.delete,
        }
    }

    closed spec fn wf(&self) -> bool {
        &&& self.get.wf()
        &&& self.post.wf()
        &&& self.put.wf()
        &&& self.patch.wf()
        &&& self.delete.wf()
    }

    fn new() -> (r: Self)
        ensures
            r.wf(),
            forall|m: Method| #[trigger] r.table(m).model() == Seq::<(Seq<SegView>, usize)>::empty(),
    {
        Tables {
            get: RouteTable::new(),
            post: RouteTable::new(),
            put: RouteTable::new(),
            patch: RouteTable::new(),
            delete: RouteTable::new(),
        }
    }

    fn add(self, m: Method, t: Vec<crate::template::Segment>, op: usize) -> (r: Result<Self, RouteError>)
        requires
            self.wf(),
            m != Method::Other,
        ensures
            (r matches Err(RouteError::Invalid)) ==> !wf_template(template_view(t@)),
            (r matches Err(RouteError::Ambiguous)) ==> exists|i: int|
                0 <= i < self.table(m).model().len() && same_shape(#[trigger] self.table(m).model()[i].0, template_view(t@)),
            r matches Ok(x) ==> x.wf() && x.table(m).model() == self.table(m).model().push((template_view(t@), op))
                && forall|m2: Method| m2 != m && m2 != Method::Other ==> #[trigger] x.table(m2).model() == self.table(m2).model(),
    {
        let ghost old_model = self.table(m).model();
        let Tables { get, post, put, patch, delete } = self;
        match m {
            Method::Get => match get.insert(t, op) {
                Ok(get) => Ok(Tables { get, post, put, patch, delete }),
                Err(e) => Err(e),
            },
            Method::Post => match post.insert(t, op) {
                Ok(post) => Ok(Tables { get, post, put, patch, delete }),
                Err(e) => Err(e),
            },
            Method::Put => match put.insert(t, op) {
                Ok(put) => Ok(Tables { get, post, put, patch, delete }),
                Err(e) => Err(e),
            },
            Method::Patch => match patch.insert(t, op) {
                Ok(patch) => Ok(Tables { get, post, put, patch, delete }),
                Err(e) => Err(e),
            },
            _ => match delete.insert(t, op) {
                Ok(delete) => Ok(Tables { get, post, put, patch, delete }),
                Err(e) => Err(e),
            },
        }
    }

    fn lookup(&self, m: Method, path: &str) -> (r: Option<RouteMatch>)
        requires
            self.wf(),
        ensures
            r matches Some(x) ==> winner(self.table(m).model(), path@) == Some(x.entry as int) && x.op
                == self.table(m).model()[x.entry as int].1 && texts(x.parts@) == split_of(path@),
            r is None ==> winner(self.table(m).model(), path@) is None,
    {
        match m {
            Method::Get => self.get.lookup(path),
            Method::Post => self.post.lookup(path),
            Method::Put => self.put.lookup(path),
            Method::Patch => self.patch.lookup(path),
            _ => self.delete.lookup(path),
        }
    }
}

/// Why a service could not be built from its operations.
#[derive(Debug, Clone, Copy, PartialEq, Eq, Structural)]
pub enum BuildReason {
    /// The operation's method is outside the supported set.
    UnsupportedMethod,
    /// The operation's template was refused by its method's table.
    Route(RouteError),
}

/// A build error: the index of the offending operation and the reason.
#[derive(Debug, Clone, Copy, PartialEq, Eq, Structural)]
pub struct BuildError {
    pub op: usize,
    pub reason: BuildReason,
}

/// Every operation has a supported method and a well-formed template, and no
/// two operations of one method have ambiguous templates.
pub open spec fn valid_contract(ops: Seq<Operation>) -> bool {
    &&& forall|k: int| 0 <= k < ops.len() ==> (#[trigger] ops[k]).method != Method::Other && wf_template(
        template_view(ops[k].template@),
    )
    &&& forall|j: int, k: int|
        0 <= j < ops.len() && 0 <= k < ops.len() && j != k && ops[j].method == ops[k].method ==> !same_shape(
            template_view(#[trigger] ops[j].template@),
            template_view(#[trigger] ops[k].template@),
        )
}

/// The dispatcher: the contract's operations and the route tables built
/// from them, read-only once built.
pub struct Service {
    ops: Vec<Operation>,
    tables: Tables,
}

/// The decision for a request that reached routing.
pub struct Call {
    pub op: usize,
    pub args: Vec<Arg>,
    pub reads_body: bool,
}

/// What routing decided: answer at once, or invoke an operation.
pub enum Routed {
    Respond(Response),
    Invoke(Call),
}

impl Service {
    /// The operations, indexed as given to `new`.
    pub closed spec fn operations(&self) -> Seq<Operation> {
        self.ops@
    }

    /// The route table of a method: each template with its operation's index.
    pub closed spec fn model(&self, m: Method) -> Seq<(Seq<SegView>, usize)> {
        self.tables.table(m).model()
    }

    /// The tables hold exactly the operations of their method, each under its
    /// own template.
    pub closed spec fn wf(&self) -> bool {
        &&& self.tables.wf()
        &&& forall|m: Method, i: int| m != Method::Other && 0 <= i < self.model(m).len() ==> {
            let k = (#[trigger] self.model(m)[i]).1 as int;
            &&& k < self.ops@.len()
            &&& self.ops@[k].method == m
            &&& self.model(m)[i].0 == template_view(self.ops@[k].template@)
        }
        &&& forall|k: int| 0 <= k < self.ops@.len() ==> (#[trigger] self.ops@[k]).method != Method::Other
            && exists|i: int| 0 <= i < self.model(self.ops@[k].method).len() && #[trigger] self.model(self.ops@[k].method)[i].1 == k
    }

    /// Builds the route tables from the operations. An operation with an
    /// unsupported method, or with a malformed template or one ambiguous
    /// with an earlier operation of its method, is refused; a contract with
    /// none of these is accepted.
    pub fn new(ops: Vec<Operation>) -> (r: Result<Service, BuildError>)
        ensures
            valid_contract(ops@) ==> r is Ok,
            r matches Ok(s) ==> s.wf() && s.operations() == ops@,
            r matches Err(e) ==> e.op < ops@.len(),
            r matches Err(e) ==> (e.reason == BuildReason::UnsupportedMethod <==> ops@[e.op as int].method == Method::Other),
            r matches Err(e) ==> (e.reason == BuildReason::Route(RouteError::Invalid) ==> !wf_template(
                template_view(ops@[e.op as int].template@),
            )),
            r matches Err(e) ==> (e.reason == BuildReason::Route(RouteError::Ambiguous) ==> exists|j: int|
                0 <= j < e.op && ops@[j].method == ops@[e.op as int].method && same_shape(
                    template_view(ops@[j].template@),
                    template_view(#[trigger] ops@[e.op as int].template@),
                )),
    {
        let mut tables = Tables::new();
        let mut k: usize = 0;
        while k < ops.len()
            invariant
                k <= ops@.len(),
                tables.wf(),
                forall|m: Method, i: int| m != Method::Other && 0 <= i < tables.table(m).model().len() ==> {
                    let j = (#[trigger] tables.table(m).model()[i]).1 as int;
                    &&& j < k
                    &&& ops@[j].method == m
                    &&& tables.table(m).model()[i].0 == template_view(ops@[j].template@)
                },
                forall|j: int| 0 <= j < k ==> (#[trigger] ops@[j]).method != Method::Other
                    && exists|i: int| 0 <= i < tables.table(ops@[j].method).model().len() && #[trigger] tables.table(ops@[j].method).model()[i].1 == j,
            decreases ops@.len() - k,
        {
            let m = ops[k].method;
            if m == Method::Other {
                return Err(BuildError { op: k, reason: BuildReason::UnsupportedMethod });
            }
            let t = copy_template(&ops[k].template);
            let ghost before = tables;
            match tables.add(m, t, k) {
                Ok(x) => {
                    tables = x;
                },
                Err(e) => {
                    proof {
                        if e == RouteError::Ambiguous {
                            let i = choose|i: int| 0 <= i < before.table(m).model().len() && same_shape(#[trigger] before.table(m).model()[i].0, template_view(ops@[k as int].template@));
                            let j = before.table(m).model()[i].1 as int;
                            assert(0 <= j < k && ops@[j].method == m);
                            assert(same_shape(template_view(ops@[j].template@), template_view(ops@[k as int].template@)));
                        }
                    }
                    return Err(BuildError { op: k, reason: BuildReason::Route(e) });
                },
            }
            proof {
                assert forall|m2: Method, i: int| m2 != Method::Other && 0 <= i < tables.table(m2).model().len() implies {
                    let j = (#[trigger] tables.table(m2).model()[i]).1 as int;
                    &&& j < k + 1
                    &&& ops@[j].method == m2
                    &&& tables.table(m2).model()[i].0 == template_view(ops@[j].template@)
                } by {
                    if m2 != m {
                        assert(tables.table(m2).model() == before.table(m2).model());
                    } else if i < before.table(m).model().len() {
                        assert(tables.table(m).model()[i] == before.table(m).model()[i]);
                    }
                }
                assert forall|j: int| 0 <= j < k + 1 implies (#[trigger] ops@[j]).method != Method::Other
                    && exists|i: int| 0 <= i < tables.table(ops@[j].method).model().len() && #[trigger] tables.table(ops@[j].method).model()[i].1 == j by {
                    let mj = ops@[j].method;
                    if j == k {
                        let i = before.table(m).model().len() as int;
                        assert(tables.table(mj).model()[i].1 == j);
                    } else {
                        let i = choose|i: int| 0 <= i < before.table(mj).model().len() && #[trigger] before.table(mj).model()[i].1 == j;
                        if mj != m {
                            assert(tables.table(mj).model() == before.table(mj).model());
                        }
                        assert(tables.table(mj).model()[i].1 == j);
                    }
                }
            }
            k = k + 1;
        }
        let s = Service { ops, tables };
        proof {
            assert forall|j: int| 0 <= j < s.ops@.len() implies (#[trigger] s.ops@[j]).method != Method::Other
                && exists|i: int| 0 <= i < s.model(s.ops@[j].method).len() && #[trigger] s.model(s.ops@[j].method)[i].1 == j by {
                let mj = s.ops@[j].method;
                let i = choose|i: int| 0 <= i < s.tables.table(mj).model().len() && #[trigger] s.tables.table(mj).model()[i].1 == j;
                assert(s.model(mj)[i].1 == j);
            }
            assert forall|m: Method, i: int| m != Method::Other && 0 <= i < s.model(m).len() implies {
                let k = (#[trigger] s.model(m)[i]).1 as int;
                &&& k < s.ops@.len()
                &&& s.ops@[k].method == m
                &&& s.model(m)[i].0 == template_view(s.ops@[k].template@)
            } by {
                assert(s.model(m)[i] == s.tables.table(m).model()[i]);
            }
        }
        Ok(s)
    }
}

/// The path resolves under some supported method other than `m`.
pub open spec fn allowed_elsewhere(s: &Service, m: Method, p: Seq<char>) -> bool {
    exists|m2: Method| m2 != Method::Other && m2 != m && (#[trigger] winner(s.model(m2), p)) is Some
}

/// What a request of method `method`, path `p` and query pairs `q` is routed
/// to. A method outside the supported set gets `405` with an empty body. A
/// path that resolves gets its operation with the extracted arguments, or
/// `400` when they cannot be extracted. A path that does not resolve gets
/// `405` when another method resolves it, else `404`.
pub open spec fn routed_as(s: &Service, method: Method, p: Seq<char>, q: Seq<PairView>, r: Routed) -> bool {
    if method == Method::Other {
        r matches Routed::Respond(x) && x.status == 405 && x.body@.len() == 0
    } else {
        let m = s.model(method);
        match winner(m, p) {
            Some(i) => {
                let d = s.operations()[m[i].1 as int];
                let pb = bindings(m[i].0, split_of(p));
                if args_ok(d.params@, pb, q) {
                    r matches Routed::Invoke(c) && c.op == m[i].1 && c.reads_body == reads_body(method, d.takes_body)
                        && args_fit(d.params@, pb, q, c.args@)
                } else {
                    r matches Routed::Respond(x) && x.status == 400 && x.body@ == error_text(400)
                }
            },
            None => if allowed_elsewhere(s, method, p) {
                r matches Routed::Respond(x) && x.status == 405 && x.body@ == error_text(405)
            } else {
                r matches Routed::Respond(x) && x.status == 404 && x.body@ == error_text(404)
            },
        }
    }
}

/// The base that a target in origin form (`/pets?limit=2`) is read against.
pub open spec fn base_url() -> Seq<char> {
    "http://localhost"@
}

/// What a request of method `method` for `url` is routed to: `400` when the
/// text has a malformed percent escape or is no URL, absolute or relative to
/// `base_url`; else as `routed_as` says for its path and query.
pub open spec fn routed_url_as(s: &Service, method: Method, url: Seq<char>, r: Routed) -> bool {
    if !percent_ok(url) {
        r matches Routed::Respond(x) && x.status == 400 && x.body@ == error_text(400)
    } else {
        routed_target_as(s, method, url_target(base_url(), url), r)
    }
}

/// What a request whose URL was parsed to `target` is routed to.
pub open spec fn routed_target_as(
    s: &Service,
    method: Method,
    target: Option<(Seq<char>, Seq<PairView>)>,
    r: Routed,
) -> bool {
    match target {
        None => r matches Routed::Respond(x) && x.status == 400 && x.body@ == error_text(400),
        Some(t) => routed_as(s, method, t.0, t.1, r),
    }
}

/// The view of an optional text.
pub open spec fn opt_text(o: Option<String>) -> Option<Seq<char>> {
    match o {
        Some(t) => Some(t@),
        None => None,
    }
}

/// An operation ready to run: its arguments and, where read, its body.
pub struct Invocation {
    pub op: usize,
    pub args: Vec<Arg>,
    pub body: Option<String>,
}

/// Takes the body for a call. Where the call does not read the body, none is
/// passed on, whatever the transport holds. Where it does, a body that could
/// not be read (`None`) or is no valid UTF-8 gives `400`.
pub fn accept_body(call: Call, body: Option<Vec<u8>>) -> (r: Result<Invocation, Response>)
    ensures
        !call.reads_body ==> (r matches Ok(inv) && inv.op == call.op && inv.args@ == call.args@ && inv.body is None),
        call.reads_body && body is None ==> (r matches Err(x) && x.status == 400 && x.body@ == error_text(400)),
        call.reads_body ==> (body matches Some(b) ==> match utf8_decoded(b@) {
            None => r matches Err(x) && x.status == 400 && x.body@ == error_text(400),
            Some(t) => r matches Ok(inv) && inv.op == call.op && inv.args@ == call.args@ && opt_text(inv.body) == Some(t),
        }),
{
    let Call { op, args, reads_body } = call;
    if !reads_body {
        return Ok(Invocation { op, args, body: None });
    }
    match body {
        None => Err(error_response(400)),
        Some(b) => match decode_utf8(b) {
            None => Err(error_response(400)),
            Some(text) => Ok(Invocation { op, args, body: Some(text) }),
        },
    }
}

impl Service {
    /// Whether a request of method `m` has its body read, for an operation
    /// that does or does not declare a body.
    fn body_rule(m: Method, takes_body: bool) -> (r: bool)
        ensures
            r == reads_body(m, takes_body),
    {
        match m {
            Method::Post | Method::Put | Method::Patch => true,
            Method::Delete => takes_body,
            _ => false,
        }
    }

    /// Whether the path resolves under a supported method other than `m`.
    fn resolves_elsewhere(&self, m: Method, path: &str) -> (r: bool)
        requires
            self.wf(),
        ensures
            r == allowed_elsewhere(self, m, path@),
    {
        let all = [Method::Get, Method::Post, Method::Put, Method::Patch, Method::Delete];
        let mut i: usize = 0;
        while i < 5
            invariant
                self.wf(),
                all@ == seq![Method::Get, Method::Post, Method::Put, Method::Patch, Method::Delete],
                i <= 5,
                forall|j: int| 0 <= j < i && all@[j] != m ==> (#[trigger] winner(self.model(all@[j]), path@)) is None,
            decreases 5 - i,
        {
            let m2 = all[i];
            if m2 != m {
                match self.tables.lookup(m2, path) {
                    Some(_) => {
                        assert(self.model(m2) == self.tables.table(m2).model());
                        return true;
                    },
                    None => {
                        assert(self.model(m2) == self.tables.table(m2).model());
                    },
                }
            }
            i = i + 1;
        }
        proof {
            assert forall|m2: Method| m2 != Method::Other && m2 != m implies (#[trigger] winner(self.model(m2), path@)) is None by {
                let j: int = match m2 {
                    Method::Get => 0,
                    Method::Post => 1,
                    Method::Put => 2,
                    Method::Patch => 3,
                    _ => 4,
                };
                assert(all@[j] == m2);
            }
        }
        false
    }

    /// Routes a request by method, path and query pairs.
    pub fn route_target(&self, method: Method, path: &str, query: &Vec<(String, String)>) -> (r: Routed)
        requires
            self.wf(),
        ensures
            routed_as(self, method, path@, pair_views(query@), r),
    {
        if method == Method::Other {
            return Routed::Respond(Response { status: 405, body: String::new() });
        }
        match self.tables.lookup(method, path) {
            None => {
                assert(self.model(method) == self.tables.table(method).model());
                if self.resolves_elsewhere(method, path) {
                    Routed::Respond(error_response(405))
                } else {
                    Routed::Respond(error_response(404))
                }
            },
            Some(x) => {
                let ghost m = self.model(method);
                assert(m == self.tables.table(method).model());
                let ghost i = x.entry as int;
                proof {
                    let w = winner(m, path@);
                    assert(selected(m, split_of(path@), i));
                    assert(0 <= i < m.len());
                    assert(m[i].0 == template_view(self.ops@[x.op as int].template@));
                }
                let op = &self.ops[x.op];
                let pb = bind(&op.template, &x.parts);
                match extract_args(&op.params, &pb, query) {
                    Ok(args) => {
                        let reads = Service::body_rule(method, op.takes_body);
                        Routed::Invoke(Call { op: x.op, args, reads_body: reads })
                    },
                    Err(_) => Routed::Respond(error_response(400)),
                }
            },
        }
    }

    /// Routes a request by method and URL text, which may be absolute or in
    /// origin form. The URL is checked and parsed first: a malformed percent
    /// escape, or a text that does not parse, gives `400`.
    pub fn route(&self, method: Method, url: &str) -> (r: Routed)
        requires
            self.wf(),
        ensures
            routed_url_as(self, method, url@, r),
    {
        if !percent_escapes_valid(url) {
            return Routed::Respond(error_response(400));
        }
        match parse_target("http://localhost", url) {
            None => Routed::Respond(error_response(400)),
            Some((path, query)) => self.route_target(method, path.as_str(), &query),
        }
    }

    /// The operation at an index.
    pub fn operation(&self, op: usize) -> (r: &Operation)
        requires
            op < self.operations().len(),
        ensures
            *r == self.operations()[op as int],
    {
        &self.ops[op]
    }
}

/// A registered template resolves to its own operation: for any path whose
/// parts fit the template of operation `k`, where no other operation of the
/// same method fits with a template that outranks it, a request of that
/// method resolves to `k`, under `k`'s own template, so that its captures
/// are bound to the path's parts. Nothing here depends on the order in which
/// the operations were registered.
pub proof fn law_registered_template_resolves(s: &Service, k: int, parts: Seq<Seq<char>>)
    requires
        s.wf(),
        0 <= k < s.operations().len(),
        path_ok(parts),
        fits(template_view(s.operations()[k].template@), parts),
        forall|j: int|
            0 <= j < s.operations().len() && j != k && s.operations()[j].method == s.operations()[k].method
                && fits(template_view(#[trigger] s.operations()[j].template@), parts) ==> !outranks(
                template_view(s.operations()[j].template@),
                template_view(s.operations()[k].template@),
            ),
    ensures
        winner(s.model(s.operations()[k].method), join(parts)) matches Some(i) && s.model(
            s.operations()[k].method,
        )[i].1 == k && s.model(s.operations()[k].method)[i].0 == template_view(s.operations()[k].template@),
        split_of(join(parts)) == parts,
{
    let ops = s.operations();
    let m = ops[k].method;
    let model = s.model(m);
    let tk = template_view(ops[k].template@);
    let i0 = choose|i: int| 0 <= i < model.len() && #[trigger] model[i].1 == k;
    assert(model[i0].0 == tk);
    assert forall|j: int| 0 <= j < model.len() && fits(#[trigger] model[j].0, parts) implies !outranks(model[j].0, model[i0].0) by {
        let oj = model[j].1 as int;
        assert(model[j].0 == template_view(ops[oj].template@));
        if oj == k {
            if outranks(tk, tk) {
                let q = choose|q: int| 0 <= q < tk.len() && q < tk.len() && (forall|x: int| 0 <= x < q ==> (#[trigger] tk[x]).0 == tk[x].0)
                    && !(#[trigger] tk[q]).0 && tk[q].0;
            }
        }
    }
    assert(selected(model, parts, i0));
    s.tables.table(m).lemma_unambiguous();
    assert(wf_template(model[i0].0));
    assert(parts.len() > 0);
    lemma_join_slash(parts);
    let p = join(parts);
    assert(path_ok(parts) && join(parts) == p);
    lemma_join_injective(split_of(p), parts);
    let w = choose|i: int| selected(model, split_of(p), i);
    lemma_selected_unique(model, parts, i0, w);
}

/// A literal beats a capture: when two operations of one method both fit a
/// path and the template of `a` outranks that of `b`, the path never
/// resolves to `b`.
pub proof fn law_literal_wins(s: &Service, a: int, b: int, parts: Seq<Seq<char>>)
    requires
        s.wf(),
        0 <= a < s.operations().len(),
        0 <= b < s.operations().len(),
        s.operations()[a].method == s.operations()[b].method,
        path_ok(parts),
        fits(template_view(s.operations()[a].template@), parts),
        outranks(template_view(s.operations()[a].template@), template_view(s.operations()[b].template@)),
    ensures
        winner(s.model(s.operations()[b].method), join(parts)) matches Some(i) ==> s.model(
            s.operations()[b].method,
        )[i].1 != b,
{
    let ops = s.operations();
    let m = ops[b].method;
    let model = s.model(m);
    let p = join(parts);
    if let Some(i) = winner(model, p) {
        if model[i].1 == b {
            assert(path_ok(parts) && join(parts) == p);
            lemma_join_injective(split_of(p), parts);
            assert(selected(model, parts, i));
            assert(model[i].0 == template_view(ops[b].template@));
            let ia = choose|x: int| 0 <= x < model.len() && #[trigger] model[x].1 == a;
            assert(model[ia].0 == template_view(ops[a].template@));
            assert(fits(model[ia].0, parts));
        }
    }
}

} // verus!

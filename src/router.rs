use vstd::prelude::*;
use crate::template::{
    join, fits, no_slash, outranks, path_ok, render, render_template, same_shape, shapes_equal,
    split_path, template_is_valid, template_view, texts, wf_template, SegView, Segment,
};

verus! {

#[verifier::external_type_specification]
#[verifier::external_body]
#[verifier::reject_recursive_types(T)]
pub struct ExRouter<T>(matchit::Router<T>);

/// What a matchit router holds: each registered template, as a plain value,
/// with the value stored for it, in order of registration.
pub uninterp spec fn routes_of(r: matchit::Router<usize>) -> Seq<(Seq<SegView>, usize)>;

/// `res` is what a lookup of `parts` in `routes` gives: no value when no
/// template matches; otherwise the value of a matching template that no
/// other matching template outranks.
pub open spec fn picks(routes: Seq<(Seq<SegView>, usize)>, parts: Seq<Seq<char>>, res: Option<usize>) -> bool {
    match res {
        None => forall|i: int| 0 <= i < routes.len() ==> !fits(#[trigger] routes[i].0, parts),
        Some(v) => exists|i: int|
            0 <= i < routes.len() && routes[i].1 == v && #[trigger] fits(routes[i].0, parts)
                && forall|j: int|
                0 <= j < routes.len() && fits(#[trigger] routes[j].0, parts) ==> !outranks(routes[j].0, routes[i].0),
    }
}

/// Relies on matchit::Router::new: a new router holds no route.
#[verifier::external_body]
fn router_new() -> (r: matchit::Router<usize>)
    ensures
        routes_of(r) == Seq::<(Seq<SegView>, usize)>::empty(),
{
    matchit::Router::new()
}

/// Relies on matchit::Router::insert: the route string of a well-formed
/// template is registered with the value unless a route of the same shape
/// (the same once parameters are renamed) is registered already.
#[verifier::external_body]
fn router_insert(r: &mut matchit::Router<usize>, route: String, value: usize) -> (ok: bool)
    requires
        exists|t: Seq<SegView>| wf_template(t) && #[trigger] render(t) == route@,
    ensures
        forall|t: Seq<SegView>|
            wf_template(t) && #[trigger] render(t) == route@ && ok ==> routes_of(*final(r)) == routes_of(*old(r)).push((t, value)),
        forall|t: Seq<SegView>|
            wf_template(t) && #[trigger] render(t) == route@ && (forall|i: int|
                0 <= i < routes_of(*old(r)).len() ==> !same_shape(#[trigger] routes_of(*old(r))[i].0, t)) ==> ok,
{
    r.insert(route, value).is_ok()
}

/// Relies on matchit::Router::at: a named parameter matches a non-empty text
/// up to the next slash, and a static segment has priority over a parameter,
/// with backtracking when the static branch fails further on.
#[verifier::external_body]
fn router_at(r: &matchit::Router<usize>, path: &str) -> (res: Option<usize>)
    ensures
        forall|parts: Seq<Seq<char>>|
            path_ok(parts) && #[trigger] join(parts) == path@ ==> picks(routes_of(*r), parts, res),
{
    r.at(path).ok().map(|m| *m.value)
}

/// Why a template was refused.
#[derive(Debug, Clone, Copy, PartialEq, Eq, Structural)]
pub enum RouteError {
    /// The template has no segment, a bad text, a capture name used twice,
    /// or too many captures.
    Invalid,
    /// The template is identical to a registered one once capture names are ignored.
    Ambiguous,
}

/// The route table of one method: path templates, each bound to an operation.
pub struct RouteTable {
    router: matchit::Router<usize>,
    entries: Vec<(Vec<Segment>, usize)>,
}

/// A successful lookup: the matching entry, its operation, and the path split
/// into parts.
pub struct RouteMatch {
    pub entry: usize,
    pub op: usize,
    pub parts: Vec<String>,
}

impl RouteTable {
    /// The templates and their operations, in order of registration.
    pub closed spec fn model(&self) -> Seq<(Seq<SegView>, usize)> {
        self.entries@.map_values(|e: (Vec<Segment>, usize)| (template_view(e.0@), e.1))
    }

    /// Every template is well formed, no two are ambiguous, and the router
    /// holds entry `i` under the value `i`.
    pub closed spec fn wf(&self) -> bool {
        let m = self.model();
        &&& routes_of(self.router).len() == m.len()
        &&& forall|i: int| 0 <= i < m.len() ==> (#[trigger] routes_of(self.router)[i]).0 == m[i].0 && routes_of(self.router)[i].1 as int == i
        &&& forall|i: int| 0 <= i < m.len() ==> wf_template(#[trigger] m[i].0)
        &&& forall|i: int, j: int| 0 <= i < m.len() && 0 <= j < m.len() && i != j
            ==> !same_shape(#[trigger] m[i].0, #[trigger] m[j].0)
    }

    pub fn new() -> (r: Self)
        ensures
            r.wf(),
            r.model() == Seq::<(Seq<SegView>, usize)>::empty(),
    {
        let r = RouteTable { router: router_new(), entries: Vec::new() };
        assert(r.model() =~= Seq::<(Seq<SegView>, usize)>::empty());
        r
    }

    /// Registers a template for an operation. A malformed template is
    /// `Invalid`; one ambiguous with a registered template is `Ambiguous`.
    pub fn insert(self, t: Vec<Segment>, op: usize) -> (r: Result<Self, RouteError>)
        requires
            self.wf(),
        ensures
            (r matches Err(RouteError::Invalid)) <==> !wf_template(template_view(t@)),
            (r matches Err(RouteError::Ambiguous)) <==> wf_template(template_view(t@))
                && exists|i: int| 0 <= i < self.model().len() && same_shape(#[trigger] self.model()[i].0, template_view(t@)),
            (r is Ok) <==> wf_template(template_view(t@)) && forall|i: int|
                0 <= i < self.model().len() ==> !same_shape(#[trigger] self.model()[i].0, template_view(t@)),
            r matches Ok(table) ==> table.wf() && table.model() == self.model().push((template_view(t@), op)),
    {
        let ghost tv = template_view(t@);
        let ghost old_routes = routes_of(self.router);
        if !template_is_valid(&t) {
            return Err(RouteError::Invalid);
        }
        let mut i: usize = 0;
        while i < self.entries.len()
            invariant
                self.wf(),
                i <= self.entries@.len(),
                tv == template_view(t@),
                wf_template(tv),
                forall|k: int| 0 <= k < i ==> !same_shape(#[trigger] self.model()[k].0, tv),
            decreases self.entries@.len() - i,
        {
            if shapes_equal(&self.entries[i].0, &t) {
                assert(self.model()[i as int].0 == template_view(self.entries@[i as int].0@));
                return Err(RouteError::Ambiguous);
            }
            assert(self.model()[i as int].0 == template_view(self.entries@[i as int].0@));
            i = i + 1;
        }
        let route = render_template(&t);
        let RouteTable { mut router, mut entries } = self;
        let n = entries.len();
        proof {
            assert(forall|k: int| 0 <= k < old_routes.len() ==> !same_shape(#[trigger] old_routes[k].0, tv)) by {
                assert forall|k: int| 0 <= k < old_routes.len() implies !same_shape(#[trigger] old_routes[k].0, tv) by {
                    assert(old_routes[k].0 == self.model()[k].0);
                }
            }
            assert(render(tv) == route@);
        }
        let ok = router_insert(&mut router, route, n);
        assert(ok);
        entries.push((t, op));
        let r = RouteTable { router, entries };
        proof {
            assert(render(tv) == route@);
            assert(routes_of(router) == old_routes.push((tv, n)));
            assert(r.model() =~= self.model().push((tv, op)));
            assert forall|a: int, b: int| 0 <= a < r.model().len() && 0 <= b < r.model().len() && a != b
                implies !same_shape(#[trigger] r.model()[a].0, #[trigger] r.model()[b].0) by {
                if a == n as int {
                    lemma_same_shape_symmetric(r.model()[b].0, tv);
                }
            }
        }
        Ok(r)
    }
}

proof fn lemma_same_shape_symmetric(a: Seq<SegView>, b: Seq<SegView>)
    ensures
        same_shape(a, b) == same_shape(b, a),
{
}

/// Entry `i` of `m` is chosen for `parts`: its template fits and no fitting
/// template outranks it.
pub open spec fn selected(m: Seq<(Seq<SegView>, usize)>, parts: Seq<Seq<char>>, i: int) -> bool {
    &&& 0 <= i < m.len()
    &&& fits(m[i].0, parts)
    &&& forall|j: int| 0 <= j < m.len() && fits(#[trigger] m[j].0, parts) ==> !outranks(m[j].0, m[i].0)
}

/// The parts of a path: the slash-free texts whose join is the path.
pub open spec fn split_of(p: Seq<char>) -> Seq<Seq<char>> {
    choose|parts: Seq<Seq<char>>| path_ok(parts) && join(parts) == p
}

/// Whether a path is of the shape `/...`, so that it has parts.
pub open spec fn rooted(p: Seq<char>) -> bool {
    p.len() > 0 && p[0] == '/'
}

/// The entry that a path resolves to in a table, if any.
pub open spec fn winner(m: Seq<(Seq<SegView>, usize)>, p: Seq<char>) -> Option<int> {
    if rooted(p) && exists|i: int| selected(m, split_of(p), i) {
        Some(choose|i: int| selected(m, split_of(p), i))
    } else {
        None
    }
}

/// No two templates of a table are ambiguous.
pub open spec fn unambiguous(m: Seq<(Seq<SegView>, usize)>) -> bool {
    forall|i: int, j: int| 0 <= i < m.len() && 0 <= j < m.len() && i != j
        ==> !same_shape(#[trigger] m[i].0, #[trigger] m[j].0)
}

pub proof fn lemma_join_slash(parts: Seq<Seq<char>>)
    requires
        parts.len() > 0,
    ensures
        join(parts).len() > 0,
        join(parts)[0] == '/',
    decreases parts.len(),
{
    let init = join(parts.drop_last());
    assert(join(parts) == init + seq!['/'] + parts.last());
    if parts.len() > 1 {
        lemma_join_slash(parts.drop_last());
        assert(join(parts)[0] == init[0]);
    } else {
        assert(init.len() == 0);
        assert(join(parts)[0] == (init + seq!['/'])[0]);
    }
}

/// Slash-free parts are determined by their join.
pub proof fn lemma_join_injective(a: Seq<Seq<char>>, b: Seq<Seq<char>>)
    requires
        path_ok(a),
        path_ok(b),
        join(a) == join(b),
    ensures
        a == b,
    decreases a.len(),
{
    if a.len() == 0 || b.len() == 0 {
        if a.len() > 0 {
            lemma_join_slash(a);
        }
        if b.len() > 0 {
            lemma_join_slash(b);
        }
        assert(a =~= b);
    } else {
        let x = a.last();
        let y = b.last();
        let l = join(a).len() as int;
        assert(no_slash(a[a.len() - 1]));
        assert(no_slash(b[b.len() - 1]));
        if x.len() < y.len() {
            let q = l - x.len() - 1;
            assert(join(a)[q] == '/');
            assert(y[q - (l - y.len())] == join(b)[q]);
            assert(y.contains('/'));
        } else if y.len() < x.len() {
            let q = l - y.len() - 1;
            assert(join(b)[q] == '/');
            assert(x[q - (l - x.len())] == join(a)[q]);
            assert(x.contains('/'));
        }
        assert(x =~= join(a).subrange(l - x.len(), l));
        assert(y =~= join(b).subrange(l - y.len(), l));
        assert(join(a.drop_last()) =~= join(a).subrange(0, l - x.len() - 1));
        assert(join(b.drop_last()) =~= join(b).subrange(0, l - y.len() - 1));
        assert(path_ok(a.drop_last()));
        assert(path_ok(b.drop_last()));
        lemma_join_injective(a.drop_last(), b.drop_last());
        assert(a =~= a.drop_last().push(x));
        assert(b =~= b.drop_last().push(y));
    }
}

proof fn lemma_first_kind_diff(a: Seq<SegView>, b: Seq<SegView>, p: int) -> (k: int)
    requires
        0 <= p < a.len(),
        p < b.len(),
        a[p].0 != b[p].0,
    ensures
        0 <= k <= p,
        a[k].0 != b[k].0,
        forall|j: int| 0 <= j < k ==> (#[trigger] a[j]).0 == b[j].0,
    decreases p,
{
    if exists|j: int| 0 <= j < p && a[j].0 != b[j].0 {
        let j = choose|j: int| 0 <= j < p && a[j].0 != b[j].0;
        lemma_first_kind_diff(a, b, j)
    } else {
        p
    }
}

/// Of two different templates of an unambiguous table that fit the same
/// parts, one outranks the other.
pub proof fn lemma_one_outranks(m: Seq<(Seq<SegView>, usize)>, parts: Seq<Seq<char>>, i: int, k: int)
    requires
        unambiguous(m),
        0 <= i < m.len(),
        0 <= k < m.len(),
        i != k,
        fits(m[i].0, parts),
        fits(m[k].0, parts),
    ensures
        outranks(m[i].0, m[k].0) || outranks(m[k].0, m[i].0),
{
    let a = m[i].0;
    let b = m[k].0;
    assert(!same_shape(a, b));
    let p = choose|p: int| 0 <= p < a.len() && !((#[trigger] a[p]).0 == b[p].0 && (!a[p].0 ==> a[p].1 == b[p].1));
    if a[p].0 == b[p].0 {
        assert(a[p].1 == parts[p]);
        assert(b[p].1 == parts[p]);
    }
    let q = lemma_first_kind_diff(a, b, p);
    if a[q].0 {
        assert(outranks(b, a));
    } else {
        assert(outranks(a, b));
    }
}

/// In an unambiguous table at most one entry is selected for given parts.
pub proof fn lemma_selected_unique(m: Seq<(Seq<SegView>, usize)>, parts: Seq<Seq<char>>, i: int, k: int)
    requires
        unambiguous(m),
        selected(m, parts, i),
        selected(m, parts, k),
    ensures
        i == k,
{
    if i != k {
        lemma_one_outranks(m, parts, i, k);
    }
}

proof fn lemma_picks_winner(
    m: Seq<(Seq<SegView>, usize)>,
    routes: Seq<(Seq<SegView>, usize)>,
    ps: Seq<Seq<char>>,
    p: Seq<char>,
    res: Option<usize>,
)
    requires
        routes.len() == m.len(),
        forall|i: int| 0 <= i < m.len() ==> (#[trigger] routes[i]).0 == m[i].0 && routes[i].1 as int == i,
        unambiguous(m),
        rooted(p),
        path_ok(ps),
        join(ps) == p,
        picks(routes, ps, res),
    ensures
        res is None ==> winner(m, p) is None,
        res matches Some(v) ==> winner(m, p) == Some(v as int) && 0 <= v < m.len(),
        split_of(p) == ps,
{
    assert(path_ok(ps) && join(ps) == p);
    let sp = split_of(p);
    lemma_join_injective(sp, ps);
    match res {
        None => {
            if exists|i: int| selected(m, sp, i) {
                let i = choose|i: int| selected(m, sp, i);
                assert(routes[i].0 == m[i].0);
                assert(fits(routes[i].0, ps));
            }
        },
        Some(v) => {
            let i = choose|i: int|
                0 <= i < routes.len() && routes[i].1 == v && #[trigger] fits(routes[i].0, ps)
                    && forall|j: int|
                    0 <= j < routes.len() && fits(#[trigger] routes[j].0, ps) ==> !outranks(routes[j].0, routes[i].0);
            assert(routes[i].0 == m[i].0 && routes[i].1 as int == i);
            assert forall|j: int| 0 <= j < m.len() && fits(#[trigger] m[j].0, ps) implies !outranks(m[j].0, m[i].0) by {
                assert(routes[j].0 == m[j].0);
                assert(fits(routes[j].0, ps));
            }
            assert(selected(m, sp, i));
            let w = choose|w: int| selected(m, sp, w);
            lemma_selected_unique(m, sp, i, w);
        },
    }
}

impl RouteTable {
    /// A well-formed table has no two ambiguous templates.
    pub proof fn lemma_unambiguous(&self)
        requires
            self.wf(),
        ensures
            unambiguous(self.model()),
            forall|i: int| 0 <= i < self.model().len() ==> wf_template(#[trigger] self.model()[i].0),
    {
    }

    /// Resolves a path. It gives the entry whose template fits the path's
    /// parts, a literal winning over a capture at the first position where
    /// fitting templates differ; and the parts themselves.
    pub fn lookup(&self, path: &str) -> (r: Option<RouteMatch>)
        requires
            self.wf(),
        ensures
            r matches Some(x) ==> winner(self.model(), path@) == Some(x.entry as int) && x.op
                == self.model()[x.entry as int].1 && texts(x.parts@) == split_of(path@),
            r is None ==> winner(self.model(), path@) is None,
    {
        let n = path.unicode_len();
        if n == 0 || path.get_char(0) != '/' {
            return None;
        }
        let parts = split_path(path);
        let res = router_at(&self.router, path);
        proof {
            let ps = texts(parts@);
            assert(join(ps) == path@);
            lemma_picks_winner(self.model(), routes_of(self.router), ps, path@, res);
        }
        match res {
            None => None,
            Some(v) => {
                assert(self.model()[v as int].1 == self.entries@[v as int].1);
                let op = self.entries[v].1;
                Some(RouteMatch { entry: v, op, parts })
            },
        }
    }
}

} // verus!

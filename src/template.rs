use vstd::prelude::*;
use vstd::string::{StrSliceExecFns, StringExecFns};

verus! {

/// One segment of a path template: a literal text or a named capture.
pub enum Segment {
    Literal(String),
    Capture(String),
}

/// A segment as a plain value: `(is_capture, text)`.
pub type SegView = (bool, Seq<char>);

impl View for Segment {
    type V = SegView;

    open spec fn view(&self) -> SegView {
        match self {
            Segment::Literal(s) => (false, s@),
            Segment::Capture(n) => (true, n@),
        }
    }
}

/// The view of a whole template.
pub open spec fn template_view(t: Seq<Segment>) -> Seq<SegView> {
    t.map_values(|s: Segment| s@)
}

/// The text of a segment inside a route string: a capture is written `{name}`.
pub open spec fn seg_text(s: SegView) -> Seq<char> {
    if s.0 {
        seq!['{'] + s.1 + seq!['}']
    } else {
        s.1
    }
}

/// Parts joined into a path: each part preceded by a slash.
pub open spec fn join(parts: Seq<Seq<char>>) -> Seq<char>
    decreases parts.len(),
{
    if parts.len() == 0 {
        Seq::empty()
    } else {
        join(parts.drop_last()) + seq!['/'] + parts.last()
    }
}

/// The route string of a template, e.g. `/pets/{id}`.
pub open spec fn render(t: Seq<SegView>) -> Seq<char> {
    join(t.map_values(|s: SegView| seg_text(s)))
}

pub open spec fn no_slash(x: Seq<char>) -> bool {
    !x.contains('/')
}

/// Every part of a split path is free of slashes.
pub open spec fn path_ok(parts: Seq<Seq<char>>) -> bool {
    forall|i: int| 0 <= i < parts.len() ==> no_slash(#[trigger] parts[i])
}

pub open spec fn literal_ok(x: Seq<char>) -> bool {
    !x.contains('/') && !x.contains('{') && !x.contains('}')
}

pub open spec fn name_ok(x: Seq<char>) -> bool {
    x.len() > 0 && literal_ok(x) && !x.contains('*')
}

/// The most captures a template may have: matchit renames the parameters of
/// a route to single letters and cannot register more.
pub const MAX_CAPTURES: usize = 25;

/// The number of captures in a template.
pub open spec fn capture_count(t: Seq<SegView>) -> nat
    decreases t.len(),
{
    if t.len() == 0 {
        0
    } else {
        capture_count(t.drop_last()) + if t.last().0 {
            1nat
        } else {
            0nat
        }
    }
}

/// A template is well formed: at least one segment, valid texts, no capture
/// name used twice, and at most `MAX_CAPTURES` captures.
pub open spec fn wf_template(t: Seq<SegView>) -> bool {
    &&& t.len() > 0
    &&& capture_count(t) <= MAX_CAPTURES
    &&& forall|i: int|
        0 <= i < t.len() ==> if (#[trigger] t[i]).0 {
            name_ok(t[i].1)
        } else {
            literal_ok(t[i].1)
        }
    &&& forall|i: int, j: int|
        0 <= i < t.len() && 0 <= j < t.len() && i != j && (#[trigger] t[i]).0 && (#[trigger] t[j]).0
            ==> t[i].1 != t[j].1
}

/// A template matches a split path: same length, equal literals, and a
/// non-empty part under each capture.
pub open spec fn fits(t: Seq<SegView>, parts: Seq<Seq<char>>) -> bool {
    &&& t.len() == parts.len()
    &&& forall|i: int|
        0 <= i < t.len() ==> if (#[trigger] t[i]).0 {
            parts[i].len() > 0
        } else {
            parts[i] == t[i].1
        }
}

/// Two templates are ambiguous: identical once capture names are ignored.
pub open spec fn same_shape(a: Seq<SegView>, b: Seq<SegView>) -> bool {
    &&& a.len() == b.len()
    &&& forall|i: int|
        0 <= i < a.len() ==> (#[trigger] a[i]).0 == b[i].0 && (!a[i].0 ==> a[i].1 == b[i].1)
}

/// `a` has priority over `b`: at the first position where one has a literal
/// and the other a capture, `a` has the literal.
pub open spec fn outranks(a: Seq<SegView>, b: Seq<SegView>) -> bool {
    exists|k: int|
        0 <= k < a.len() && k < b.len() && (forall|j: int| 0 <= j < k ==> (#[trigger] a[j]).0 == b[j].0)
            && !(#[trigger] a[k]).0 && b[k].0
}


/// The views of a sequence of strings.
pub open spec fn texts(v: Seq<String>) -> Seq<Seq<char>> {
    v.map_values(|s: String| s@)
}

proof fn lemma_join_push(parts: Seq<Seq<char>>, x: Seq<char>)
    ensures
        join(parts.push(x)) == join(parts) + seq!['/'] + x,
{
    assert(parts.push(x).drop_last() =~= parts);
}

/// Splits a path that starts with a slash into its parts, the text between
/// slashes: `/pets/7` gives `pets` and `7`, `/` gives one empty part.
pub fn split_path(p: &str) -> (r: Vec<String>)
    requires
        p@.len() > 0,
        p@[0] == '/',
    ensures
        join(texts(r@)) == p@,
        path_ok(texts(r@)),
{
    let n = p.unicode_len();
    let mut parts: Vec<String> = Vec::new();
    let mut start: usize = 1;
    let mut i: usize = 1;
    proof {
        assert(texts(parts@) =~= Seq::<Seq<char>>::empty());
        assert(join(texts(parts@)) + seq!['/'] =~= p@.subrange(0, 1));
    }
    while i < n
        invariant
            n == p@.len(),
            1 <= start <= i <= n,
            join(texts(parts@)) + seq!['/'] == p@.subrange(0, start as int),
            path_ok(texts(parts@)),
            no_slash(p@.subrange(start as int, i as int)),
        decreases n - i,
    {
        let c = p.get_char(i);
        if c == '/' {
            let part = p.substring_char(start, i).to_owned();
            proof {
                let old_texts = texts(parts@);
                lemma_join_push(old_texts, part@);
                assert(texts(parts@.push(part)) =~= old_texts.push(part@));
                assert(p@.subrange(0, i as int + 1) =~= p@.subrange(0, start as int) + part@
                    + seq!['/']);
            }
            parts.push(part);
            start = i + 1;
        } else {
            proof {
                let a = p@.subrange(start as int, i as int);
                assert(p@.subrange(start as int, i as int + 1) =~= a.push(c));
                assert(!a.contains('/'));
                if a.push(c).contains('/') {
                    let k = choose|k: int| 0 <= k < a.push(c).len() && a.push(c)[k] == '/';
                    assert(a.contains('/') || c == '/') by {
                        if k < a.len() {
                            assert(a[k] == '/');
                        }
                    }
                }
            }
        }
        i = i + 1;
    }
    let last = p.substring_char(start, n).to_owned();
    proof {
        let old_texts = texts(parts@);
        lemma_join_push(old_texts, last@);
        assert(texts(parts@.push(last)) =~= old_texts.push(last@));
        assert(p@ =~= p@.subrange(0, start as int) + last@);
    }
    parts.push(last);
    parts
}

/// Writes a template as a route string: `/pets/{id}`.
pub fn render_template(t: &Vec<Segment>) -> (r: String)
    ensures
        r@ == render(template_view(t@)),
{
    let mut r = String::new();
    let mut i: usize = 0;
    let ghost texts_of = template_view(t@).map_values(|s: SegView| seg_text(s));
    proof {
        reveal_strlit("/");
        reveal_strlit("{");
        reveal_strlit("}");
        assert(texts_of.subrange(0, 0) =~= Seq::<Seq<char>>::empty());
    }
    while i < t.len()
        invariant
            i <= t@.len(),
            texts_of == template_view(t@).map_values(|s: SegView| seg_text(s)),
            r@ == join(texts_of.subrange(0, i as int)),
        decreases t@.len() - i,
    {
        let ghost before = r@;
        r.append("/");
        match &t[i] {
            Segment::Literal(s) => {
                r.append(s.as_str());
            },
            Segment::Capture(n) => {
                r.append("{");
                r.append(n.as_str());
                r.append("}");
            },
        }
        proof {
            reveal_strlit("/");
            reveal_strlit("{");
            reveal_strlit("}");
            let sub = texts_of.subrange(0, i as int + 1);
            assert(sub.drop_last() =~= texts_of.subrange(0, i as int));
            assert(sub.last() == seg_text(t@[i as int]@));
            assert(r@ =~= before + seq!['/'] + seg_text(t@[i as int]@));
        }
        i = i + 1;
    }
    proof {
        assert(texts_of.subrange(0, t@.len() as int) =~= texts_of);
    }
    r
}


/// Whether a string holds none of the given characters.
fn free_of(s: &str, a: char, b: char, c: char, d: char) -> (r: bool)
    ensures
        r == (!s@.contains(a) && !s@.contains(b) && !s@.contains(c) && !s@.contains(d)),
{
    let n = s.unicode_len();
    let mut i: usize = 0;
    while i < n
        invariant
            n == s@.len(),
            i <= n,
            forall|k: int| 0 <= k < i ==> s@[k] != a && s@[k] != b && s@[k] != c && s@[k] != d,
        decreases n - i,
    {
        let x = s.get_char(i);
        if x == a || x == b || x == c || x == d {
            assert(s@[i as int] == x);
            return false;
        }
        i = i + 1;
    }
    true
}

/// Whether a segment is valid on its own: a literal without slash or brace,
/// a non-empty capture name without slash, brace or star.
pub fn segment_is_valid(s: &Segment) -> (r: bool)
    ensures
        r == (if s@.0 { name_ok(s@.1) } else { literal_ok(s@.1) }),
{
    match s {
        Segment::Literal(l) => free_of(l.as_str(), '/', '{', '}', '/'),
        Segment::Capture(n) => n.as_str().unicode_len() > 0 && free_of(n.as_str(), '/', '{', '}', '*'),
    }
}

/// Counts the captures of a template.
fn count_captures(t: &Vec<Segment>) -> (r: usize)
    ensures
        r == capture_count(template_view(t@)),
{
    let ghost v = template_view(t@);
    let mut n: usize = 0;
    let mut i: usize = 0;
    assert(v.subrange(0, 0) =~= Seq::<SegView>::empty());
    while i < t.len()
        invariant
            v == template_view(t@),
            i <= t@.len(),
            n <= i,
            n == capture_count(v.subrange(0, i as int)),
        decreases t@.len() - i,
    {
        let ghost sub = v.subrange(0, i as int + 1);
        assert(sub.drop_last() =~= v.subrange(0, i as int));
        assert(sub.last() == t@[i as int]@);
        match &t[i] {
            Segment::Capture(_) => {
                n = n + 1;
            },
            Segment::Literal(_) => {},
        }
        i = i + 1;
    }
    assert(v.subrange(0, t@.len() as int) =~= v);
    n
}

/// Whether a template is well formed.
pub fn template_is_valid(t: &Vec<Segment>) -> (r: bool)
    ensures
        r == wf_template(template_view(t@)),
{
    let ghost v = template_view(t@);
    if t.len() == 0 || count_captures(t) > MAX_CAPTURES {
        return false;
    }
    let mut i: usize = 0;
    while i < t.len()
        invariant
            v == template_view(t@),
            i <= t@.len(),
            forall|k: int| 0 <= k < i ==> if (#[trigger] v[k]).0 { name_ok(v[k].1) } else { literal_ok(v[k].1) },
            forall|k: int, l: int|
                0 <= k < i && 0 <= l < i && k != l && (#[trigger] v[k]).0 && (#[trigger] v[l]).0
                    ==> v[k].1 != v[l].1,
        decreases t@.len() - i,
    {
        if !segment_is_valid(&t[i]) {
            assert(v[i as int] == t@[i as int]@);
            return false;
        }
        let mut j: usize = 0;
        while j < i
            invariant
                v == template_view(t@),
                j <= i < t@.len(),
                forall|l: int| 0 <= l < j && v[i as int].0 && (#[trigger] v[l]).0 ==> v[i as int].1 != v[l].1,
            decreases i - j,
        {
            match (&t[i], &t[j]) {
                (Segment::Capture(a), Segment::Capture(b)) => {
                    if a.eq(b) {
                        assert(v[i as int] == t@[i as int]@ && v[j as int] == t@[j as int]@);
                        return false;
                    }
                },
                _ => {},
            }
            assert(v[i as int] == t@[i as int]@ && v[j as int] == t@[j as int]@);
            j = j + 1;
        }
        assert(v[i as int] == t@[i as int]@);
        i = i + 1;
    }
    true
}

/// Whether two templates are ambiguous, identical once capture names are ignored.
pub fn shapes_equal(a: &Vec<Segment>, b: &Vec<Segment>) -> (r: bool)
    ensures
        r == same_shape(template_view(a@), template_view(b@)),
{
    let ghost va = template_view(a@);
    let ghost vb = template_view(b@);
    if a.len() != b.len() {
        return false;
    }
    let mut i: usize = 0;
    while i < a.len()
        invariant
            va == template_view(a@),
            vb == template_view(b@),
            a@.len() == b@.len(),
            i <= a@.len(),
            forall|k: int| 0 <= k < i ==> (#[trigger] va[k]).0 == vb[k].0 && (!va[k].0 ==> va[k].1 == vb[k].1),
        decreases a@.len() - i,
    {
        let same = match (&a[i], &b[i]) {
            (Segment::Literal(x), Segment::Literal(y)) => x.eq(y),
            (Segment::Capture(_), Segment::Capture(_)) => true,
            _ => false,
        };
        assert(va[i as int] == a@[i as int]@ && vb[i as int] == b@[i as int]@);
        if !same {
            return false;
        }
        i = i + 1;
    }
    true
}

/// A copy of a template.
pub fn copy_template(t: &Vec<Segment>) -> (r: Vec<Segment>)
    ensures
        template_view(r@) == template_view(t@),
{
    let mut r: Vec<Segment> = Vec::new();
    let mut i: usize = 0;
    while i < t.len()
        invariant
            i <= t@.len(),
            r@.len() == i,
            forall|k: int| 0 <= k < i ==> (#[trigger] r@[k])@ == t@[k]@,
        decreases t@.len() - i,
    {
        let s = match &t[i] {
            Segment::Literal(x) => Segment::Literal(x.clone()),
            Segment::Capture(x) => Segment::Capture(x.clone()),
        };
        r.push(s);
        i = i + 1;
    }
    assert(template_view(r@) =~= template_view(t@));
    r
}

} // verus!

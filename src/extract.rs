use vstd::prelude::*;
use vstd::string::StrSliceExecFns;
use crate::template::{texts, SegView, Segment, template_view};

verus! {

/// A key/value pair of texts as a plain value.
pub type PairView = (Seq<char>, Seq<char>);

pub open spec fn pair_views(v: Seq<(String, String)>) -> Seq<PairView> {
    v.map_values(|p: (String, String)| (p.0@, p.1@))
}

/// The value of the last pair with the given key: a later pair overrides an
/// earlier one.
pub open spec fn last_value(pairs: Seq<PairView>, key: Seq<char>) -> Option<Seq<char>>
    decreases pairs.len(),
{
    if pairs.len() == 0 {
        None
    } else if pairs.last().0 == key {
        Some(pairs.last().1)
    } else {
        last_value(pairs.drop_last(), key)
    }
}

/// Finds the value of the last pair with the given key.
pub fn find_last(pairs: &Vec<(String, String)>, key: &String) -> (r: Option<String>)
    ensures
        r matches Some(v) ==> last_value(pair_views(pairs@), key@) == Some(v@),
        r is None ==> last_value(pair_views(pairs@), key@) is None,
{
    let mut i: usize = pairs.len();
    let ghost pv = pair_views(pairs@);
    assert(pv.subrange(0, i as int) =~= pv);
    while i > 0
        invariant
            i <= pairs@.len(),
            pv == pair_views(pairs@),
            last_value(pv, key@) == last_value(pv.subrange(0, i as int), key@),
        decreases i,
    {
        let ghost sub = pv.subrange(0, i as int);
        assert(sub.last() == (pairs@[i - 1].0@, pairs@[i - 1].1@));
        if pairs[i - 1].0.eq(key) {
            return Some(pairs[i - 1].1.clone());
        }
        assert(sub.drop_last() =~= pv.subrange(0, i - 1));
        i = i - 1;
    }
    None
}

/// The bindings of a template's captures to the parts of a path, in order.
pub open spec fn bindings(t: Seq<SegView>, parts: Seq<Seq<char>>) -> Seq<PairView>
    decreases t.len(),
{
    if t.len() == 0 || parts.len() == 0 {
        Seq::empty()
    } else if t.last().0 {
        bindings(t.drop_last(), parts.drop_last()).push((t.last().1, parts.last()))
    } else {
        bindings(t.drop_last(), parts.drop_last())
    }
}

/// Binds each capture of a template to the part of the path at its position.
pub fn bind(t: &Vec<Segment>, parts: &Vec<String>) -> (r: Vec<(String, String)>)
    requires
        t@.len() == parts@.len(),
    ensures
        pair_views(r@) == bindings(template_view(t@), texts(parts@)),
{
    let mut r: Vec<(String, String)> = Vec::new();
    let mut i: usize = 0;
    let ghost tv = template_view(t@);
    let ghost ps = texts(parts@);
    while i < t.len()
        invariant
            t@.len() == parts@.len(),
            i <= t@.len(),
            tv == template_view(t@),
            ps == texts(parts@),
            pair_views(r@) == bindings(tv.subrange(0, i as int), ps.subrange(0, i as int)),
        decreases t@.len() - i,
    {
        let ghost tsub = tv.subrange(0, i as int + 1);
        let ghost psub = ps.subrange(0, i as int + 1);
        assert(tsub.drop_last() =~= tv.subrange(0, i as int));
        assert(psub.drop_last() =~= ps.subrange(0, i as int));
        assert(tsub.last() == t@[i as int]@);
        match &t[i] {
            Segment::Capture(n) => {
                r.push((n.clone(), parts[i].clone()));
                assert(pair_views(r@) =~= bindings(tv.subrange(0, i as int), ps.subrange(0, i as int)).push((n@, parts@[i as int]@)));
            },
            Segment::Literal(_) => {},
        }
        i = i + 1;
    }
    assert(tv.subrange(0, t@.len() as int) =~= tv);
    assert(ps.subrange(0, t@.len() as int) =~= ps);
    r
}

pub open spec fn is_digit(c: char) -> bool {
    '0' <= c && c <= '9'
}

/// The value of a string of decimal digits.
pub open spec fn digits_value(s: Seq<char>) -> int
    decreases s.len(),
{
    if s.len() == 0 {
        0
    } else {
        digits_value(s.drop_last()) * 10 + (s.last() as int - '0' as int)
    }
}

pub open spec fn all_digits(s: Seq<char>) -> bool {
    s.len() > 0 && forall|i: int| 0 <= i < s.len() ==> is_digit(#[trigger] s[i])
}

/// A decimal integer with an optional sign, in the range of `i64`.
pub open spec fn parse_int(s: Seq<char>) -> Option<int> {
    let signed = s.len() > 0 && (s[0] == '-' || s[0] == '+');
    let body = if signed { s.drop_first() } else { s };
    let v = if signed && s[0] == '-' { -digits_value(body) } else { digits_value(body) };
    if all_digits(body) && i64::MIN <= v <= i64::MAX {
        Some(v)
    } else {
        None
    }
}

proof fn lemma_digits_prefix(b: Seq<char>, k: int)
    requires
        forall|i: int| 0 <= i < b.len() ==> is_digit(#[trigger] b[i]),
        0 <= k <= b.len(),
    ensures
        0 <= digits_value(b.subrange(0, k)) <= digits_value(b),
    decreases b.len(),
{
    if k == b.len() {
        assert(b.subrange(0, k) =~= b);
        lemma_digits_prefix_nonneg(b);
    } else {
        let d = b.drop_last();
        assert(b.subrange(0, k) =~= d.subrange(0, k));
        lemma_digits_prefix(d, k);
        assert(is_digit(b[b.len() - 1]));
    }
}

proof fn lemma_digits_prefix_nonneg(b: Seq<char>)
    requires
        forall|i: int| 0 <= i < b.len() ==> is_digit(#[trigger] b[i]),
    ensures
        digits_value(b) >= 0,
    decreases b.len(),
{
    if b.len() > 0 {
        lemma_digits_prefix_nonneg(b.drop_last());
        assert(is_digit(b[b.len() - 1]));
    }
}

const LIMIT: u128 = 9223372036854775808;

/// Reads a decimal integer with an optional sign, as `i64`'s `from_str` does.
pub fn parse_i64(s: &str) -> (r: Option<i64>)
    ensures
        r matches Some(v) ==> parse_int(s@) == Some(v as int),
        r is None ==> parse_int(s@) is None,
{
    let n = s.unicode_len();
    let mut start: usize = 0;
    let mut neg = false;
    if n > 0 {
        let c = s.get_char(0);
        if c == '-' || c == '+' {
            start = 1;
            neg = c == '-';
        }
    }
    let ghost body = s@.subrange(start as int, n as int);
    proof {
        if n > 0 && (s@[0] == '-' || s@[0] == '+') {
            assert(body =~= s@.drop_first());
        } else {
            assert(body =~= s@);
        }
    }
    let ghost v = if neg { -digits_value(body) } else { digits_value(body) };
    assert(parse_int(s@) == if all_digits(body) && i64::MIN <= v <= i64::MAX {
        Some(v)
    } else {
        None::<int>
    });
    if start >= n {
        return None;
    }
    let mut acc: u128 = 0;
    let mut i: usize = start;
    while i < n
        invariant
            n == s@.len(),
            start <= i <= n,
            body == s@.subrange(start as int, n as int),
            v == if neg { -digits_value(body) } else { digits_value(body) },
            parse_int(s@) == if all_digits(body) && i64::MIN <= v <= i64::MAX {
                Some(v)
            } else {
                None::<int>
            },
            forall|k: int| 0 <= k < i - start ==> is_digit(#[trigger] body[k]),
            acc as int == digits_value(body.subrange(0, i - start)),
            acc <= LIMIT,
        decreases n - i,
    {
        let c = s.get_char(i);
        let ghost pre = body.subrange(0, i - start + 1);
        assert(pre.drop_last() =~= body.subrange(0, i - start));
        assert(pre.last() == c);
        assert(body[i - start] == s@[i as int]);
        if c < '0' || c > '9' {
            assert(!is_digit(body[i - start]));
            assert(!all_digits(body));
            return None;
        }
        let d = (c as u32 - '0' as u32) as u128;
        let next = acc * 10 + d;
        assert(digits_value(pre) == digits_value(pre.drop_last()) * 10 + (pre.last() as int - '0' as int));
        assert(next as int == digits_value(pre));
        if next > LIMIT {
            proof {
                assert forall|k: int| 0 <= k < pre.len() implies is_digit(#[trigger] pre[k]) by {
                    assert(pre[k] == body[k]);
                }
                if all_digits(body) {
                    lemma_digits_prefix(body, i - start + 1);
                }
            }
            return None;
        }
        acc = next;
        i = i + 1;
    }
    assert(body.subrange(0, n - start) =~= body);
    if neg {
        Some((0 - acc as i128) as i64)
    } else if acc < LIMIT {
        Some(acc as i64)
    } else {
        None
    }
}

/// What `Url::parse` and its accessors give for a text read against a base
/// URL: `None` when it is no URL, else the path and the query as
/// percent-decoded pairs in order.
pub uninterp spec fn url_target(base: Seq<char>, s: Seq<char>) -> Option<(Seq<char>, Seq<PairView>)>;

/// Relies on url::Url::parse, ParseOptions::base_url, Url::path and
/// Url::query_pairs: whether the text parses as a URL, absolute or relative
/// to the base, its path, and its query pairs.
#[verifier::external_body]
pub(crate) fn parse_target(base: &str, s: &str) -> (r: Option<(String, Vec<(String, String)>)>)
    ensures
        (r is None) <==> (url_target(base@, s@) is None),
        r matches Some(t) ==> url_target(base@, s@) == Some((t.0@, pair_views(t.1@))),
{
    let b = url::Url::parse(base).ok()?;
    url::Url::options().base_url(Some(&b)).parse(s).ok().map(
        |u| (u.path().to_string(), u.query_pairs().map(|(k, v)| (k.into_owned(), v.into_owned())).collect())
    )
}

pub open spec fn is_hex(c: char) -> bool {
    ('0' <= c && c <= '9') || ('a' <= c && c <= 'f') || ('A' <= c && c <= 'F')
}

/// Every `%` in the text starts an escape: it is followed by two hex digits.
pub open spec fn percent_ok(s: Seq<char>) -> bool {
    forall|i: int| 0 <= i < s.len() && #[trigger] s[i] == '%' ==> i + 2 < s.len() && is_hex(s[i + 1]) && is_hex(
        s[i + 2],
    )
}

fn hex_digit(c: char) -> (r: bool)
    ensures
        r == is_hex(c),
{
    ('0' <= c && c <= '9') || ('a' <= c && c <= 'f') || ('A' <= c && c <= 'F')
}

/// Whether every `%` in the text is followed by two hex digits.
pub fn percent_escapes_valid(s: &str) -> (r: bool)
    ensures
        r == percent_ok(s@),
{
    let n = s.unicode_len();
    let mut i: usize = 0;
    while i < n
        invariant
            n == s@.len(),
            i <= n,
            forall|k: int| 0 <= k < i && #[trigger] s@[k] == '%' ==> k + 2 < s@.len() && is_hex(s@[k + 1]) && is_hex(
                s@[k + 2],
            ),
        decreases n - i,
    {
        if s.get_char(i) == '%' {
            if n - i <= 2 || !hex_digit(s.get_char(i + 1)) || !hex_digit(s.get_char(i + 2)) {
                return false;
            }
        }
        i = i + 1;
    }
    true
}

/// What `String::from_utf8` gives for bytes: the text, or `None` when the
/// bytes are no valid UTF-8.
pub uninterp spec fn utf8_decoded(b: Seq<u8>) -> Option<Seq<char>>;

/// Relies on std's String::from_utf8: the text that valid UTF-8 bytes encode.
#[verifier::external_body]
pub(crate) fn decode_utf8(b: Vec<u8>) -> (r: Option<String>)
    ensures
        (r is None) <==> (utf8_decoded(b@) is None),
        r matches Some(t) ==> utf8_decoded(b@) == Some(t@),
{
    String::from_utf8(b).ok()
}

} // verus!

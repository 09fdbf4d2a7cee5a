//! The identity of a proxied request: method, URI parts and headers.
use vstd::prelude::*;
use crate::text::{bytes_equal, string_bytes, utf8};

verus! {

/// One header line: its (lower-case) name and its raw value.
#[derive(Debug)]
pub struct Header {
    pub name: String,
    pub value: Vec<u8>,
}

/// A header as bytes: name and value.
pub type HeaderView = (Seq<u8>, Seq<u8>);

impl View for Header {
    type V = HeaderView;

    open spec fn view(&self) -> HeaderView {
        (utf8(self.name@), self.value@)
    }
}

/// The byte view of a list of headers.
pub open spec fn headers_view(hs: Seq<Header>) -> Seq<HeaderView> {
    hs.map_values(|h: Header| h@)
}

/// The values recorded under `name`, in order.
pub open spec fn values_named(hs: Seq<HeaderView>, name: Seq<u8>) -> Seq<Seq<u8>>
    decreases hs.len(),
{
    if hs.len() == 0 {
        seq![]
    } else {
        let rest = values_named(hs.drop_last(), name);
        if hs.last().0 == name {
            rest.push(hs.last().1)
        } else {
            rest
        }
    }
}

/// The first value recorded under `name`, if any.
pub open spec fn first_value(hs: Seq<HeaderView>, name: Seq<u8>) -> Option<Seq<u8>> {
    if values_named(hs, name).len() > 0 {
        Some(values_named(hs, name)[0])
    } else {
        None
    }
}

/// Two header lists are equal as header maps: the same number of values, and under
/// every name of the first the same values in the same order.
pub open spec fn headers_eq(a: Seq<HeaderView>, b: Seq<HeaderView>) -> bool {
    &&& a.len() == b.len()
    &&& forall|i: int| 0 <= i < a.len() ==> values_named(a, #[trigger] a[i].0) == values_named(b, a[i].0)
}

/// ASCII lower-casing of one byte.
pub open spec fn ascii_lower(c: u8) -> u8 {
    if 65 <= c <= 90 {
        (c + 32) as u8
    } else {
        c
    }
}

/// Equality up to ASCII case.
pub open spec fn eq_ignore_case(a: Seq<u8>, b: Seq<u8>) -> bool {
    a.len() == b.len() && forall|i: int| 0 <= i < a.len() ==> ascii_lower(#[trigger] a[i]) == ascii_lower(b[i])
}

/// The scheme of a request URI.
#[derive(Debug)]
pub enum UriScheme {
    Http,
    Https,
    Other(String),
}

/// The scheme as bytes.
pub enum SchemeView {
    Http,
    Https,
    Other(Seq<u8>),
}

impl View for UriScheme {
    type V = SchemeView;

    open spec fn view(&self) -> SchemeView {
        match self {
            UriScheme::Http => SchemeView::Http,
            UriScheme::Https => SchemeView::Https,
            UriScheme::Other(s) => SchemeView::Other(utf8(s@)),
        }
    }
}

/// Scheme equality: the two standard schemes by kind, any other scheme up to ASCII case.
pub open spec fn scheme_eq(a: Option<SchemeView>, b: Option<SchemeView>) -> bool {
    match (a, b) {
        (None, None) => true,
        (Some(SchemeView::Http), Some(SchemeView::Http)) => true,
        (Some(SchemeView::Https), Some(SchemeView::Https)) => true,
        (Some(SchemeView::Other(x)), Some(SchemeView::Other(y))) => eq_ignore_case(x, y),
        _ => false,
    }
}

/// Authority equality: both absent, or both present and equal up to ASCII case.
pub open spec fn authority_eq(a: Option<Seq<u8>>, b: Option<Seq<u8>>) -> bool {
    match (a, b) {
        (None, None) => true,
        (Some(x), Some(y)) => eq_ignore_case(x, y),
        _ => false,
    }
}

/// What identifies a request for the cache: its method, URI and headers.
#[derive(Debug)]
pub struct RequestData {
    pub method: String,
    pub scheme: Option<UriScheme>,
    pub authority: Option<String>,
    pub path: String,
    pub query: Option<String>,
    pub headers: Vec<Header>,
}

/// A request as sequences of characters and bytes.
pub struct RequestView {
    pub method: Seq<char>,
    pub scheme: Option<SchemeView>,
    pub authority: Option<Seq<u8>>,
    pub path: Seq<u8>,
    pub query: Option<Seq<char>>,
    pub headers: Seq<HeaderView>,
}

impl View for RequestData {
    type V = RequestView;

    open spec fn view(&self) -> RequestView {
        RequestView {
            method: self.method@,
            scheme: match self.scheme {
                Some(s) => Some(s@),
                None => None,
            },
            authority: match self.authority {
                Some(a) => Some(utf8(a@)),
                None => None,
            },
            path: utf8(self.path@),
            query: match self.query {
                Some(q) => Some(q@),
                None => None,
            },
            headers: headers_view(self.headers@),
        }
    }
}

/// Two requests are the same cache key: same method, equal URIs and equal header maps.
pub open spec fn request_eq(a: RequestView, b: RequestView) -> bool {
    &&& a.method == b.method
    &&& scheme_eq(a.scheme, b.scheme)
    &&& authority_eq(a.authority, b.authority)
    &&& a.path == b.path
    &&& a.query == b.query
    &&& headers_eq(a.headers, b.headers)
}

/// Requests that are the same cache key have the same method, the same path and the
/// same query (present in both and equal, or absent from both), and either both name
/// an authority or neither does. So a response stored for one query is never the one
/// found for another.
pub proof fn lemma_same_key_same_uri(a: RequestView, b: RequestView)
    requires
        request_eq(a, b),
    ensures
        a.method == b.method,
        a.path == b.path,
        a.query == b.query,
        a.authority is Some <==> b.authority is Some,
        a.scheme is Some <==> b.scheme is Some,
{
}

/// Requests that are the same cache key carry the same header values under every
/// name, in the same order.
pub proof fn lemma_same_key_same_headers(a: RequestView, b: RequestView, name: Seq<u8>)
    requires
        request_eq(a, b),
    ensures
        values_named(a.headers, name) == values_named(b.headers, name),
{
    lemma_headers_eq_names(a.headers, b.headers);
    lemma_names_included(a.headers, b.headers);
    lemma_has_name_values(a.headers, name);
    lemma_has_name_values(b.headers, name);
}

/// The authority is compared without regard to ASCII case: a request is the same key as
/// itself with its authority lower-cased.
pub proof fn lemma_authority_case_ignored(a: RequestView, x: Seq<u8>)
    requires
        a.authority == Some(x),
    ensures
        request_eq(a, RequestView { authority: Some(x.map_values(|c: u8| ascii_lower(c))), ..a }),
{
    lemma_request_eq_reflexive(a);
    let y = x.map_values(|c: u8| ascii_lower(c));
    assert forall|i: int| 0 <= i < x.len() implies ascii_lower(#[trigger] x[i]) == ascii_lower(y[i]) by {}
}

/// Every request is the same cache key as itself.
pub proof fn lemma_request_eq_reflexive(a: RequestView)
    ensures
        request_eq(a, a),
{
    match a.scheme {
        Some(SchemeView::Other(x)) => {
            assert(eq_ignore_case(x, x));
        },
        _ => {},
    }
    match a.authority {
        Some(x) => {
            assert(eq_ignore_case(x, x));
        },
        None => {},
    }
}

/// Some header line of `hs` is named `name`.
pub open spec fn has_name(hs: Seq<HeaderView>, name: Seq<u8>) -> bool {
    exists|i: int| 0 <= i < hs.len() && (#[trigger] hs[i]).0 == name
}

/// The header lines of `hs` not named `name`, in order.
pub open spec fn drop_name(hs: Seq<HeaderView>, name: Seq<u8>) -> Seq<HeaderView>
    decreases hs.len(),
{
    if hs.len() == 0 {
        hs
    } else {
        let rest = drop_name(hs.drop_last(), name);
        if hs.last().0 == name {
            rest
        } else {
            rest.push(hs.last())
        }
    }
}

proof fn lemma_has_name_values(hs: Seq<HeaderView>, name: Seq<u8>)
    ensures
        has_name(hs, name) <==> values_named(hs, name).len() > 0,
    decreases hs.len(),
{
    if hs.len() > 0 {
        let d = hs.drop_last();
        lemma_has_name_values(d, name);
        if has_name(d, name) {
            let i = choose|i: int| 0 <= i < d.len() && (#[trigger] d[i]).0 == name;
            assert(hs[i] == d[i]);
        }
        if has_name(hs, name) && hs.last().0 != name {
            let i = choose|i: int| 0 <= i < hs.len() && (#[trigger] hs[i]).0 == name;
            assert(d[i] == hs[i]);
        }
    }
}

proof fn lemma_drop_name(hs: Seq<HeaderView>, name: Seq<u8>)
    ensures
        drop_name(hs, name).len() + values_named(hs, name).len() == hs.len(),
        forall|m: Seq<u8>| m != name ==> #[trigger] values_named(drop_name(hs, name), m) == values_named(hs, m),
        forall|m: Seq<u8>| #[trigger] has_name(drop_name(hs, name), m) ==> m != name && has_name(hs, m),
        forall|m: Seq<u8>| m != name && #[trigger] has_name(hs, m) ==> has_name(drop_name(hs, name), m),
    decreases hs.len(),
{
    if hs.len() > 0 {
        let d = hs.drop_last();
        let l = hs.last();
        lemma_drop_name(d, name);
        let rd = drop_name(d, name);
        let r = drop_name(hs, name);
        assert forall|m: Seq<u8>| m != name implies #[trigger] values_named(r, m) == values_named(hs, m) by {
            assert(values_named(rd, m) == values_named(d, m));
            if l.0 != name {
                assert(r == rd.push(l));
                assert(r.drop_last() =~= rd);
                assert(r.last() == l);
            } else {
                assert(r == rd);
            }
        }
        assert forall|m: Seq<u8>| #[trigger] has_name(r, m) implies m != name && has_name(hs, m) by {
            let i = choose|i: int| 0 <= i < r.len() && (#[trigger] r[i]).0 == m;
            if l.0 != name && i == r.len() - 1 {
                assert(hs[hs.len() - 1].0 == m);
            } else {
                assert(rd[i] == r[i]);
                assert(has_name(rd, m));
                let k = choose|k: int| 0 <= k < d.len() && (#[trigger] d[k]).0 == m;
                assert(hs[k] == d[k]);
            }
        }
        assert forall|m: Seq<u8>| m != name && #[trigger] has_name(hs, m) implies has_name(r, m) by {
            let i = choose|i: int| 0 <= i < hs.len() && (#[trigger] hs[i]).0 == m;
            if i == hs.len() - 1 {
                assert(r[r.len() - 1] == l);
            } else {
                assert(d[i] == hs[i]);
                assert(has_name(d, m));
                assert(has_name(rd, m));
                let k = choose|k: int| 0 <= k < rd.len() && (#[trigger] rd[k]).0 == m;
                assert(r[k] == rd[k]);
            }
        }
    }
}

/// When two header lists have the same length and agree under every name of the
/// first, the second has no other names.
proof fn lemma_names_included(a: Seq<HeaderView>, b: Seq<HeaderView>)
    requires
        a.len() == b.len(),
        forall|m: Seq<u8>| #[trigger] has_name(a, m) ==> values_named(a, m) == values_named(b, m),
    ensures
        forall|m: Seq<u8>| #[trigger] has_name(b, m) ==> has_name(a, m),
    decreases a.len(),
{
    if a.len() > 0 {
        let n = a[0].0;
        assert(has_name(a, n));
        lemma_has_name_values(a, n);
        lemma_drop_name(a, n);
        lemma_drop_name(b, n);
        let a2 = drop_name(a, n);
        let b2 = drop_name(b, n);
        assert forall|m: Seq<u8>| #[trigger] has_name(a2, m) implies values_named(a2, m) == values_named(b2, m) by {
            assert(has_name(a, m));
        }
        lemma_names_included(a2, b2);
        assert forall|m: Seq<u8>| #[trigger] has_name(b, m) implies has_name(a, m) by {
            if m != n {
                assert(has_name(b2, m));
                assert(has_name(a2, m));
            }
        }
    } else {
        assert forall|m: Seq<u8>| #[trigger] has_name(b, m) implies has_name(a, m) by {
        }
    }
}

proof fn lemma_headers_eq_names(a: Seq<HeaderView>, b: Seq<HeaderView>)
    requires
        headers_eq(a, b),
    ensures
        forall|m: Seq<u8>| #[trigger] has_name(a, m) ==> values_named(a, m) == values_named(b, m),
{
    assert forall|m: Seq<u8>| #[trigger] has_name(a, m) implies values_named(a, m) == values_named(b, m) by {
        let i = choose|i: int| 0 <= i < a.len() && (#[trigger] a[i]).0 == m;
    }
}

/// Header-map equality is symmetric.
pub proof fn lemma_headers_eq_symmetric(a: Seq<HeaderView>, b: Seq<HeaderView>)
    requires
        headers_eq(a, b),
    ensures
        headers_eq(b, a),
{
    lemma_headers_eq_names(a, b);
    lemma_names_included(a, b);
    assert forall|j: int| 0 <= j < b.len() implies values_named(b, #[trigger] b[j].0) == values_named(a, b[j].0) by {
        assert(has_name(b, b[j].0));
    }
}

/// Header-map equality is transitive.
pub proof fn lemma_headers_eq_transitive(a: Seq<HeaderView>, b: Seq<HeaderView>, c: Seq<HeaderView>)
    requires
        headers_eq(a, b),
        headers_eq(b, c),
    ensures
        headers_eq(a, c),
{
    lemma_headers_eq_names(b, c);
    assert forall|i: int| 0 <= i < a.len() implies values_named(a, #[trigger] a[i].0) == values_named(c, a[i].0) by {
        let m = a[i].0;
        assert(has_name(a, m));
        lemma_has_name_values(a, m);
        lemma_has_name_values(b, m);
    }
}

/// Equality up to ASCII case is symmetric and transitive.
proof fn lemma_eq_ignore_case(a: Seq<u8>, b: Seq<u8>, c: Seq<u8>)
    ensures
        eq_ignore_case(a, b) ==> eq_ignore_case(b, a),
        eq_ignore_case(a, b) && eq_ignore_case(b, c) ==> eq_ignore_case(a, c),
{
    if eq_ignore_case(a, b) && eq_ignore_case(b, c) {
        assert forall|i: int| 0 <= i < a.len() implies ascii_lower(#[trigger] a[i]) == ascii_lower(c[i]) by {
            assert(ascii_lower(a[i]) == ascii_lower(b[i]));
            assert(ascii_lower(b[i]) == ascii_lower(c[i]));
        }
    }
    if eq_ignore_case(a, b) {
        assert forall|i: int| 0 <= i < b.len() implies ascii_lower(#[trigger] b[i]) == ascii_lower(a[i]) by {
            assert(ascii_lower(a[i]) == ascii_lower(b[i]));
        }
    }
}

/// Being the same cache key is symmetric.
pub proof fn lemma_request_eq_symmetric(a: RequestView, b: RequestView)
    requires
        request_eq(a, b),
    ensures
        request_eq(b, a),
{
    lemma_headers_eq_symmetric(a.headers, b.headers);
    match (a.scheme, b.scheme) {
        (Some(SchemeView::Other(x)), Some(SchemeView::Other(y))) => {
            lemma_eq_ignore_case(x, y, y);
        },
        _ => {},
    }
    match (a.authority, b.authority) {
        (Some(x), Some(y)) => {
            lemma_eq_ignore_case(x, y, y);
        },
        _ => {},
    }
}

/// Being the same cache key is transitive.
pub proof fn lemma_request_eq_transitive(a: RequestView, b: RequestView, c: RequestView)
    requires
        request_eq(a, b),
        request_eq(b, c),
    ensures
        request_eq(a, c),
{
    lemma_headers_eq_transitive(a.headers, b.headers, c.headers);
    match (a.scheme, b.scheme, c.scheme) {
        (Some(SchemeView::Other(x)), Some(SchemeView::Other(y)), Some(SchemeView::Other(z))) => {
            lemma_eq_ignore_case(x, y, z);
        },
        _ => {},
    }
    match (a.authority, b.authority, c.authority) {
        (Some(x), Some(y), Some(z)) => {
            lemma_eq_ignore_case(x, y, z);
        },
        _ => {},
    }
}

/// The values under `name` of a concatenation are those of each part, in order.
pub proof fn lemma_values_named_concat(a: Seq<HeaderView>, b: Seq<HeaderView>, name: Seq<u8>)
    ensures
        values_named(a + b, name) == values_named(a, name) + values_named(b, name),
    decreases b.len(),
{
    if b.len() == 0 {
        assert(a + b =~= a);
        assert(values_named(b, name) =~= seq![]);
        assert(values_named(a, name) + values_named(b, name) =~= values_named(a, name));
    } else {
        lemma_values_named_concat(a, b.drop_last(), name);
        assert((a + b).drop_last() =~= a + b.drop_last());
        if b.last().0 == name {
            assert(values_named(a, name) + values_named(b, name) =~= (values_named(a, name)
                + values_named(b.drop_last(), name)).push(b.last().1));
        } else {
        }
    }
}

/// ASCII lower-casing of one byte.
fn lower_byte(c: u8) -> (r: u8)
    ensures
        r == ascii_lower(c),
{
    if 65 <= c && c <= 90 {
        c + 32
    } else {
        c
    }
}

/// Byte equality up to ASCII case.
pub fn bytes_eq_ignore_case(a: &[u8], b: &[u8]) -> (r: bool)
    ensures
        r == eq_ignore_case(a@, b@),
{
    if a.len() != b.len() {
        return false;
    }
    let mut i: usize = 0;
    while i < a.len()
        invariant
            a@.len() == b@.len(),
            i <= a@.len(),
            forall|j: int| 0 <= j < i ==> ascii_lower(a@[j]) == ascii_lower(b@[j]),
        decreases a@.len() - i,
    {
        if lower_byte(a[i]) != lower_byte(b[i]) {
            return false;
        }
        i = i + 1;
    }
    true
}

impl Header {
    /// A header line from its name and value.
    pub fn new(name: &str, value: &str) -> (h: Header)
        ensures
            h.name@ == name@,
            h.value@ == utf8(value@),
    {
        let mut v: Vec<u8> = Vec::new();
        let bytes = value.as_bytes();
        let mut i: usize = 0;
        while i < bytes.len()
            invariant
                i <= bytes@.len(),
                v@ == bytes@.subrange(0, i as int),
            decreases bytes@.len() - i,
        {
            v.push(bytes[i]);
            i = i + 1;
        }
        assert(v@ =~= bytes@);
        Header { name: name.to_owned(), value: v }
    }

    /// A copy of this header line.
    pub fn duplicate(&self) -> (h: Header)
        ensures
            h@ == self@,
    {
        let v = self.value.clone();
        assert(v@ =~= self.value@);
        Header { name: self.name.clone(), value: v }
    }
}

/// A copy of a list of header lines.
pub fn duplicate_headers(hs: &Vec<Header>) -> (r: Vec<Header>)
    ensures
        headers_view(r@) == headers_view(hs@),
{
    let mut r: Vec<Header> = Vec::new();
    let mut i: usize = 0;
    while i < hs.len()
        invariant
            i <= hs@.len(),
            r@.len() == i,
            forall|j: int| 0 <= j < i ==> r@[j]@ == hs@[j]@,
        decreases hs@.len() - i,
    {
        r.push(hs[i].duplicate());
        i = i + 1;
    }
    assert(headers_view(r@) =~= headers_view(hs@));
    r
}

/// The positions of the header lines named `name` among the first `n`.
fn positions_named(hs: &Vec<Header>, name: &[u8]) -> (r: Vec<usize>)
    ensures
        r@.len() == values_named(headers_view(hs@), name@).len(),
        forall|k: int| 0 <= k < r@.len() ==> (#[trigger] r@[k]) < hs@.len()
            && hs@[r@[k] as int].value@ == values_named(headers_view(hs@), name@)[k],
{
    let ghost hv = headers_view(hs@);
    let mut r: Vec<usize> = Vec::new();
    let mut i: usize = 0;
    while i < hs.len()
        invariant
            hv == headers_view(hs@),
            i <= hs@.len(),
            r@.len() == values_named(hv.take(i as int), name@).len(),
            forall|k: int| 0 <= k < r@.len() ==> (#[trigger] r@[k]) < i
                && hs@[r@[k] as int].value@ == values_named(hv.take(i as int), name@)[k],
        decreases hs@.len() - i,
    {
        assert(hv.take(i + 1).drop_last() =~= hv.take(i as int));
        if bytes_equal(string_bytes(&hs[i].name), name) {
            r.push(i);
        }
        i = i + 1;
    }
    assert(hv.take(hs@.len() as int) =~= hv);
    r
}

/// The headers agree under `name`: the same values in the same order.
fn same_values_named(a: &Vec<Header>, b: &Vec<Header>, name: &[u8]) -> (r: bool)
    ensures
        r == (values_named(headers_view(a@), name@) == values_named(headers_view(b@), name@)),
{
    let pa = positions_named(a, name);
    let pb = positions_named(b, name);
    let ghost va = values_named(headers_view(a@), name@);
    let ghost vb = values_named(headers_view(b@), name@);
    if pa.len() != pb.len() {
        return false;
    }
    let mut k: usize = 0;
    while k < pa.len()
        invariant
            va == values_named(headers_view(a@), name@),
            vb == values_named(headers_view(b@), name@),
            pa@.len() == pb@.len(),
            pa@.len() == va.len(),
            pb@.len() == vb.len(),
            forall|j: int| 0 <= j < pa@.len() ==> (#[trigger] pa@[j]) < a@.len()
                && a@[pa@[j] as int].value@ == va[j],
            forall|j: int| 0 <= j < pb@.len() ==> (#[trigger] pb@[j]) < b@.len()
                && b@[pb@[j] as int].value@ == vb[j],
            k <= pa@.len(),
            forall|j: int| 0 <= j < k ==> va[j] == vb[j],
        decreases pa@.len() - k,
    {
        let x = pa[k];
        let y = pb[k];
        if !bytes_equal(a[x].value.as_slice(), b[y].value.as_slice()) {
            assert(va[k as int] != vb[k as int]);
            return false;
        }
        k = k + 1;
    }
    assert(va =~= vb);
    true
}

/// Header-map equality of two header lists.
pub fn headers_equal(a: &Vec<Header>, b: &Vec<Header>) -> (r: bool)
    ensures
        r == headers_eq(headers_view(a@), headers_view(b@)),
{
    let ghost av = headers_view(a@);
    let ghost bv = headers_view(b@);
    if a.len() != b.len() {
        return false;
    }
    let mut i: usize = 0;
    while i < a.len()
        invariant
            av == headers_view(a@),
            bv == headers_view(b@),
            a@.len() == b@.len(),
            i <= a@.len(),
            forall|j: int| 0 <= j < i ==> values_named(av, #[trigger] av[j].0) == values_named(bv, av[j].0),
        decreases a@.len() - i,
    {
        if !same_values_named(a, b, string_bytes(&a[i].name)) {
            assert(av[i as int].0 == utf8(a@[i as int].name@));
            assert(values_named(av, av[i as int].0) != values_named(bv, av[i as int].0));
            return false;
        }
        i = i + 1;
    }
    true
}

/// The first value recorded under `name`.
pub fn header_value<'a>(hs: &'a Vec<Header>, name: &[u8]) -> (r: Option<&'a Vec<u8>>)
    ensures
        match r {
            Some(v) => first_value(headers_view(hs@), name@) == Some(v@),
            None => first_value(headers_view(hs@), name@) is None,
        },
{
    let ghost hv = headers_view(hs@);
    let mut i: usize = 0;
    while i < hs.len()
        invariant
            hv == headers_view(hs@),
            i <= hs@.len(),
            values_named(hv.take(i as int), name@) == Seq::<Seq<u8>>::empty(),
        decreases hs@.len() - i,
    {
        assert(hv.take(i + 1).drop_last() =~= hv.take(i as int));
        if bytes_equal(string_bytes(&hs[i].name), name) {
            proof {
                assert(hv =~= hv.take(i + 1) + hv.skip(i + 1));
                lemma_values_named_concat(hv.take(i + 1), hv.skip(i + 1), name@);
            }
            return Some(&hs[i].value);
        }
        i = i + 1;
    }
    assert(hv.take(hs@.len() as int) =~= hv);
    None
}

/// Option equality up to ASCII case.
fn optional_eq_ignore_case(a: &Option<String>, b: &Option<String>) -> (r: bool)
    ensures
        r == authority_eq(
            match a {
                Some(x) => Some(utf8(x@)),
                None => None,
            },
            match b {
                Some(x) => Some(utf8(x@)),
                None => None,
            },
        ),
{
    match (a, b) {
        (None, None) => true,
        (Some(x), Some(y)) => bytes_eq_ignore_case(string_bytes(x), string_bytes(y)),
        _ => false,
    }
}

impl UriScheme {
    /// A copy of this scheme.
    pub fn duplicate(&self) -> (r: UriScheme)
        ensures
            r@ == self@,
    {
        match self {
            UriScheme::Http => UriScheme::Http,
            UriScheme::Https => UriScheme::Https,
            UriScheme::Other(s) => UriScheme::Other(s.clone()),
        }
    }
}

/// Scheme equality.
fn schemes_equal(a: &Option<UriScheme>, b: &Option<UriScheme>) -> (r: bool)
    ensures
        r == scheme_eq(
            match a {
                Some(s) => Some(s@),
                None => None,
            },
            match b {
                Some(s) => Some(s@),
                None => None,
            },
        ),
{
    match (a, b) {
        (None, None) => true,
        (Some(UriScheme::Http), Some(UriScheme::Http)) => true,
        (Some(UriScheme::Https), Some(UriScheme::Https)) => true,
        (Some(UriScheme::Other(x)), Some(UriScheme::Other(y))) => bytes_eq_ignore_case(
            string_bytes(x),
            string_bytes(y),
        ),
        _ => false,
    }
}

/// Option equality of strings.
fn optional_strings_equal(a: &Option<String>, b: &Option<String>) -> (r: bool)
    ensures
        r == (match a {
            Some(x) => Some(x@),
            None => None,
        } == match b {
            Some(x) => Some(x@),
            None => None,
        }),
{
    match (a, b) {
        (None, None) => true,
        (Some(x), Some(y)) => *x == *y,
        _ => false,
    }
}

impl RequestData {
    /// A copy of this request.
    pub fn duplicate(&self) -> (r: RequestData)
        ensures
            r@ == self@,
    {
        let scheme = match &self.scheme {
            Some(s) => Some(s.duplicate()),
            None => None,
        };
        let authority = match &self.authority {
            Some(a) => Some(a.clone()),
            None => None,
        };
        let query = match &self.query {
            Some(q) => Some(q.clone()),
            None => None,
        };
        let r = RequestData {
            method: self.method.clone(),
            scheme,
            authority,
            path: self.path.clone(),
            query,
            headers: duplicate_headers(&self.headers),
        };
        r
    }

    /// Whether two requests are the same cache key.
    pub fn same_key(&self, other: &RequestData) -> (r: bool)
        ensures
            r == request_eq(self@, other@),
    {
        self.method == other.method && schemes_equal(&self.scheme, &other.scheme)
            && optional_eq_ignore_case(&self.authority, &other.authority) && bytes_equal(
            string_bytes(&self.path),
            string_bytes(&other.path),
        ) && optional_strings_equal(&self.query, &other.query) && headers_equal(
            &self.headers,
            &other.headers,
        )
    }
}

} // verus!

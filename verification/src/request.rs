use vstd::prelude::*;

verus! {

use crate::applicator::{Applicator, resolve};
use crate::dict::{Dict, distinct_keys};
use crate::response::{Response, ResponseError};
use crate::strutil::str_eq;
use vstd::string::StringExecFns;

/// What can go wrong while performing a request.
#[derive(Debug)]
pub enum RequestError {
    /// The transport failed; carries its report.
    Http(String),
    /// Reading a body file failed; carries the report.
    Io(String),
    /// The reply could not be normalized.
    Parse(ResponseError),
    /// The request names a method outside GET, POST, PUT and DELETE.
    UnsupportedMethod(String),
}

/// A request body: none, form fields, raw text or a file, or multipart fields.
pub enum Body {
    Empty,
    Form { data: Dict<String> },
    Raw { from: RawBody },
    MultiPart { data: Dict<MultiPartField> },
}

/// A raw body: the contents of a file, or inline text.
pub enum RawBody {
    File { path: String },
    Text { data: String },
}

/// One multipart field: a file to stream, or inline text.
pub enum MultiPartField {
    File { path: String },
    Text { data: String },
}

/// The methods a request may use.
#[derive(Clone, Copy, PartialEq, Eq, Structural, Debug)]
pub enum Method {
    Get,
    Post,
    Put,
    Delete,
}

/// A declarative request before or after rendering.
pub struct Request {
    pub description: String,
    pub tags: Vec<String>,
    pub url: String,
    pub method: String,
    pub headers: Dict<String>,
    pub query_parameters: Dict<String>,
    pub body: Body,
}

/// The request method used when a request declares none.
pub fn default_method() -> (r: String)
    ensures
        r@ == "GET"@,
{
    let m: String = String::from_str("GET");
    m
}

pub open spec fn body_wf(b: Body) -> bool {
    match b {
        Body::Form { data } => data.wf(),
        Body::MultiPart { data } => data.wf(),
        _ => true,
    }
}

/// The entries of `n` are those of `o` with every value resolved.
pub open spec fn dict_resolved(
    o: Seq<(Seq<char>, String)>,
    n: Seq<(Seq<char>, String)>,
    ctx: Map<Seq<char>, String>,
    resps: Map<Seq<char>, Response>,
) -> bool {
    &&& n.len() == o.len()
    &&& forall|i: int|
        0 <= i < o.len() ==> #[trigger] n[i].0 == o[i].0 && n[i].1@ == resolve(o[i].1@, ctx, resps)
}

/// A multipart field with its text resolved.
pub open spec fn field_resolved(
    o: MultiPartField,
    n: MultiPartField,
    ctx: Map<Seq<char>, String>,
    resps: Map<Seq<char>, Response>,
) -> bool {
    match (o, n) {
        (MultiPartField::File { path: p1 }, MultiPartField::File { path: p2 }) => p2@ == resolve(
            p1@,
            ctx,
            resps,
        ),
        (MultiPartField::Text { data: d1 }, MultiPartField::Text { data: d2 }) => d2@ == resolve(
            d1@,
            ctx,
            resps,
        ),
        _ => false,
    }
}

/// A body with every templated leaf resolved: form values, the raw
/// file path or inline text, and each multipart field.
pub open spec fn body_resolved(
    o: Body,
    n: Body,
    ctx: Map<Seq<char>, String>,
    resps: Map<Seq<char>, Response>,
) -> bool {
    match (o, n) {
        (Body::Empty, Body::Empty) => true,
        (Body::Form { data: d1 }, Body::Form { data: d2 }) => dict_resolved(
            d1.kv(),
            d2.kv(),
            ctx,
            resps,
        ),
        (Body::Raw { from: f1 }, Body::Raw { from: f2 }) => {
            match (f1, f2) {
                (RawBody::File { path: p1 }, RawBody::File { path: p2 }) => p2@ == resolve(
                    p1@,
                    ctx,
                    resps,
                ),
                (RawBody::Text { data: d1 }, RawBody::Text { data: d2 }) => d2@ == resolve(
                    d1@,
                    ctx,
                    resps,
                ),
                _ => false,
            }
        },
        (Body::MultiPart { data: d1 }, Body::MultiPart { data: d2 }) => {
            &&& d2.kv().len() == d1.kv().len()
            &&& forall|i: int|
                0 <= i < d1.kv().len() ==> #[trigger] d2.kv()[i].0 == d1.kv()[i].0
                    && field_resolved(d1.kv()[i].1, d2.kv()[i].1, ctx, resps)
        },
        _ => false,
    }
}

/// Resolves every value of a table in place.
fn resolve_dict_values(d: &mut Dict<String>, app: &Applicator)
    requires
        old(d).wf(),
        app.wf(),
    ensures
        final(d).wf(),
        dict_resolved(old(d).kv(), final(d).kv(), app.ctx(), app.resps()),
{
    let n = d.len();
    let mut i: usize = 0;
    while i < n
        invariant
            i <= n,
            n == d.kv().len(),
            d.wf(),
            app.wf(),
            d.kv().len() == old(d).kv().len(),
            forall|j: int|
                0 <= j < i ==> #[trigger] d.kv()[j].0 == old(d).kv()[j].0 && d.kv()[j].1@
                    == resolve(old(d).kv()[j].1@, app.ctx(), app.resps()),
            forall|j: int| i <= j < n ==> #[trigger] d.kv()[j] == old(d).kv()[j],
        decreases n - i,
    {
        let v = app.apply(d.value_at(i).as_str());
        d.set_value_at(i, v);
        i = i + 1;
    }
}

/// Resolves a body, yielding the rendered structure.
fn resolve_body(b: Body, app: &Applicator) -> (r: Body)
    requires
        body_wf(b),
        app.wf(),
    ensures
        body_wf(r),
        body_resolved(b, r, app.ctx(), app.resps()),
{
    let ghost ob = b;
    match b {
        Body::Empty => Body::Empty,
        Body::Form { data } => {
            let mut data = data;
            resolve_dict_values(&mut data, app);
            Body::Form { data }
        }
        Body::Raw { from } => {
            match from {
                RawBody::File { path } => {
                    let p = app.apply(path.as_str());
                    Body::Raw { from: RawBody::File { path: p } }
                }
                RawBody::Text { data } => {
                    let t = app.apply(data.as_str());
                    Body::Raw { from: RawBody::Text { data: t } }
                }
            }
        }
        Body::MultiPart { data } => {
            let mut data = data;
            let n = data.len();
            let mut i: usize = 0;
            while i < n
                invariant
                    i <= n,
                    n == data.kv().len(),
                    data.wf(),
                    app.wf(),
                    ob matches Body::MultiPart { data: d0 } ==> {
                        &&& data.kv().len() == d0.kv().len()
                        &&& forall|j: int|
                            0 <= j < i ==> #[trigger] data.kv()[j].0 == d0.kv()[j].0
                                && field_resolved(
                                d0.kv()[j].1,
                                data.kv()[j].1,
                                app.ctx(),
                                app.resps(),
                            )
                        &&& forall|j: int| i <= j < n ==> #[trigger] data.kv()[j] == d0.kv()[j]
                    },
                decreases n - i,
            {
                let nf = match data.value_at(i) {
                    MultiPartField::File { path } => {
                        let p = app.apply(path.as_str());
                        MultiPartField::File { path: p }
                    }
                    MultiPartField::Text { data: t } => {
                        let d = app.apply(t.as_str());
                        MultiPartField::Text { data: d }
                    }
                };
                data.set_value_at(i, nf);
                i = i + 1;
            }
            Body::MultiPart { data }
        }
    }
}

/// Two bodies that hold the same variant and, entry for entry, the
/// same values; the tables around them may differ.
pub open spec fn body_same(a: Body, b: Body) -> bool {
    match (a, b) {
        (Body::Empty, Body::Empty) => true,
        (Body::Form { data: d1 }, Body::Form { data: d2 }) => d1.kv() == d2.kv(),
        (Body::Raw { from: f1 }, Body::Raw { from: f2 }) => f1 == f2,
        (Body::MultiPart { data: d1 }, Body::MultiPart { data: d2 }) => d1.kv() == d2.kv(),
        _ => false,
    }
}

/// Resolving is unmoved by swapping a body for one with the same entries.
pub proof fn lemma_body_resolved_same(
    a: Body,
    b: Body,
    c: Body,
    ctx: Map<Seq<char>, String>,
    resps: Map<Seq<char>, Response>,
)
    requires
        body_same(a, b),
        body_resolved(b, c, ctx, resps),
    ensures
        body_resolved(a, c, ctx, resps),
{
}

fn clone_strings(v: &Vec<String>) -> (r: Vec<String>)
    ensures
        r@ == v@,
{
    let mut r: Vec<String> = Vec::new();
    let mut i: usize = 0;
    while i < v.len()
        invariant
            i <= v@.len(),
            r@.len() == i,
            forall|j: int| 0 <= j < i ==> r@[j] == v@[j],
        decreases v@.len() - i,
    {
        r.push(v[i].clone());
        i = i + 1;
    }
    proof {
        assert(r@ =~= v@);
    }
    r
}

/// A copy of a multipart table with the same entries.
fn dup_mp(d: &Dict<MultiPartField>) -> (r: Dict<MultiPartField>)
    requires
        d.wf(),
    ensures
        r.wf(),
        r.kv() == d.kv(),
{
    let n = d.len();
    let mut r: Dict<MultiPartField> = Dict::new();
    let mut i: usize = 0;
    proof {
        assert(r.kv() =~= d.kv().subrange(0, 0));
    }
    while i < n
        invariant
            i <= n,
            n == d.kv().len(),
            d.wf(),
            r.wf(),
            r.kv() == d.kv().subrange(0, i as int),
        decreases n - i,
    {
        let k = d.key_at(i).clone();
        let f = match d.value_at(i) {
            MultiPartField::File { path } => MultiPartField::File { path: path.clone() },
            MultiPartField::Text { data } => MultiPartField::Text { data: data.clone() },
        };
        proof {
            assert(f == d.kv()[i as int].1);
            assert(!r@.contains_key(k@)) by {
                crate::dict::lemma_dict_domain(&r, k@);
                if r@.contains_key(k@) {
                    let j = choose|j: int| 0 <= j < r.kv().len() && r.kv()[j].0 == k@;
                    assert(r.kv()[j] == d.kv().subrange(0, i as int)[j]);
                    assert(d.kv().subrange(0, i as int)[j] == d.kv()[j]);
                    assert(distinct_keys(d.kv()));
                    assert(d.kv()[j].0 != d.kv()[i as int].0);
                }
            }
        }
        r.insert(k, f);
        proof {
            assert(r.kv() =~= d.kv().subrange(0, i + 1));
        }
        i = i + 1;
    }
    proof {
        assert(d.kv().subrange(0, d.kv().len() as int) =~= d.kv());
        assert(r.kv() =~= d.kv());
    }
    r
}

/// A copy of a body with the same entries.
fn dup_body(b: &Body) -> (r: Body)
    requires
        body_wf(*b),
    ensures
        body_wf(r),
        body_same(*b, r),
{
    match b {
        Body::Empty => Body::Empty,
        Body::Form { data } => Body::Form { data: data.duplicate() },
        Body::Raw { from } => {
            match from {
                RawBody::File { path } => Body::Raw { from: RawBody::File { path: path.clone() } },
                RawBody::Text { data } => Body::Raw { from: RawBody::Text { data: data.clone() } },
            }
        }
        Body::MultiPart { data } => Body::MultiPart { data: dup_mp(data) },
    }
}

impl Request {
    /// A copy with the same text everywhere.
    pub fn duplicate(&self) -> (r: Request)
        requires
            self.wf(),
        ensures
            r.wf(),
            r.description == self.description,
            r.tags@ == self.tags@,
            r.url == self.url,
            r.method == self.method,
            r.headers.kv() == self.headers.kv(),
            r.query_parameters.kv() == self.query_parameters.kv(),
            body_same(self.body, r.body),
    {
        Request {
            description: self.description.clone(),
            tags: clone_strings(&self.tags),
            url: self.url.clone(),
            method: self.method.clone(),
            headers: self.headers.duplicate(),
            query_parameters: self.query_parameters.duplicate(),
            body: dup_body(&self.body),
        }
    }
}

impl Request {
    pub open spec fn wf(&self) -> bool {
        &&& self.headers.wf()
        &&& self.query_parameters.wf()
        &&& body_wf(self.body)
    }

    /// Rewrites every templated part of the request in place:
    /// description, URL, method, header values, query parameter
    /// values, and the active body variant.
    pub fn apply(&mut self, app: &Applicator)
        requires
            old(self).wf(),
            app.wf(),
        ensures
            final(self).wf(),
            final(self).description@ == resolve(old(self).description@, app.ctx(), app.resps()),
            final(self).url@ == resolve(old(self).url@, app.ctx(), app.resps()),
            final(self).method@ == resolve(old(self).method@, app.ctx(), app.resps()),
            final(self).tags == old(self).tags,
            dict_resolved(
                old(self).headers.kv(),
                final(self).headers.kv(),
                app.ctx(),
                app.resps(),
            ),
            dict_resolved(
                old(self).query_parameters.kv(),
                final(self).query_parameters.kv(),
                app.ctx(),
                app.resps(),
            ),
            body_resolved(old(self).body, final(self).body, app.ctx(), app.resps()),
    {
        let d = app.apply(self.description.as_str());
        self.description = d;
        let u = app.apply(self.url.as_str());
        self.url = u;
        let m = app.apply(self.method.as_str());
        self.method = m;
        resolve_dict_values(&mut self.headers, app);
        resolve_dict_values(&mut self.query_parameters, app);
        let mut b = Body::Empty;
        core::mem::swap(&mut b, &mut self.body);
        let nb = resolve_body(b, app);
        self.body = nb;
    }

    /// The method the request names, or the unsupported-method error
    /// carrying its text.
    pub fn method_kind(&self) -> (r: Result<Method, RequestError>)
        ensures
            r matches Ok(m) ==> (match m {
                Method::Get => self.method@ == "GET"@,
                Method::Post => self.method@ == "POST"@,
                Method::Put => self.method@ == "PUT"@,
                Method::Delete => self.method@ == "DELETE"@,
            }),
            r is Ok <==> (self.method@ == "GET"@ || self.method@ == "POST"@ || self.method@
                == "PUT"@ || self.method@ == "DELETE"@),
            r matches Err(e) ==> e matches RequestError::UnsupportedMethod(m) && m@
                == self.method@,
    {
        proof {
            reveal_strlit("GET");
            reveal_strlit("POST");
            reveal_strlit("PUT");
            reveal_strlit("DELETE");
        }
        if str_eq(self.method.as_str(), "GET") {
            Ok(Method::Get)
        } else if str_eq(self.method.as_str(), "POST") {
            Ok(Method::Post)
        } else if str_eq(self.method.as_str(), "PUT") {
            Ok(Method::Put)
        } else if str_eq(self.method.as_str(), "DELETE") {
            Ok(Method::Delete)
        } else {
            Err(RequestError::UnsupportedMethod(self.method.clone()))
        }
    }
}

} // verus!

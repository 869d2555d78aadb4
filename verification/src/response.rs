use vstd::prelude::*;

verus! {

use crate::dict::Dict;
use crate::json::find_path;

/// What can go wrong while performing a call or handling its reply.
#[derive(Debug)]
pub enum ResponseError {
    /// The transport failed; carries its report.
    Http(String),
    /// A reply header value was not text; carries the header name.
    NonAsciiHeader(String),
    /// Reading or writing a file failed; carries the report.
    Io(String),
    /// A stored response could not be decoded; carries the report.
    Yaml(String),
}

/// A captured reply: status, protocol version, text headers and the body.
pub struct Response {
    pub status_code: u16,
    pub version: String,
    pub headers: Dict<String>,
    pub body: String,
}

/// The header table that a sequence of named text values builds.
pub open spec fn hdr_map(hs: Seq<(String, Option<String>)>) -> Map<Seq<char>, String>
    decreases hs.len(),
{
    if hs.len() == 0 {
        Map::empty()
    } else {
        hdr_map(hs.drop_last()).insert(hs.last().0@, hs.last().1->0)
    }
}

/// The first position at or after `i` whose value is not text, else the length.
pub open spec fn first_non_text(hs: Seq<(String, Option<String>)>, i: int) -> int
    decreases hs.len() - i,
{
    if 0 <= i && i < hs.len() {
        if hs[i].1 is None {
            i
        } else {
            first_non_text(hs, i + 1)
        }
    } else {
        hs.len() as int
    }
}

impl Response {
    pub open spec fn wf(&self) -> bool {
        self.headers.wf()
    }

    /// What a dot path selects in this response's body.
    pub fn find_path_in_body(&self, path: &str) -> (r: Option<String>)
        ensures
            match r {
                Some(s) => find_path(self.body@, path@) == Some(s@),
                None => find_path(self.body@, path@) is None,
            },
    {
        crate::json::find_path_x(self.body.as_str(), path)
    }

    /// Normalizes a reply into a response. Every header value must be
    /// text; the first one that is not names the error.
    pub fn from_parts(
        status_code: u16,
        version: String,
        headers: &Vec<(String, Option<String>)>,
        body: String,
    ) -> (r: Result<Response, ResponseError>)
        ensures
            r is Ok <==> (forall|i: int| 0 <= i < headers@.len() ==> headers@[i].1 is Some),
            r matches Ok(resp) ==> {
                &&& resp.status_code == status_code
                &&& resp.version@ == version@
                &&& resp.body@ == body@
                &&& resp.headers@ == hdr_map(headers@)
                &&& resp.wf()
            },
            r matches Err(e) ==> (e matches ResponseError::NonAsciiHeader(n) && n@ == headers@[
                first_non_text(headers@, 0)].0@),
    {
        let ghost hs = headers@;
        let mut table: Dict<String> = Dict::new();
        let mut i: usize = 0;
        proof {
            assert(hdr_map(hs.subrange(0, 0)) =~= Map::<Seq<char>, String>::empty());
        }
        while i < headers.len()
            invariant
                i <= hs.len(),
                hs == headers@,
                table.wf(),
                table@ == hdr_map(hs.subrange(0, i as int)),
                forall|j: int| 0 <= j < i ==> hs[j].1 is Some,
                first_non_text(hs, 0) == first_non_text(hs, i as int),
            decreases hs.len() - i,
        {
            let name = headers[i].0.clone();
            match &headers[i].1 {
                Some(v) => {
                    let ghost prefix = hs.subrange(0, i as int);
                    table.insert(name, v.clone());
                    proof {
                        let stepped = hs.subrange(0, i + 1);
                        assert(stepped.drop_last() =~= prefix);
                        assert(stepped.last() == hs[i as int]);
                    }
                }
                None => {
                    return Err(ResponseError::NonAsciiHeader(name));
                }
            }
            i = i + 1;
        }
        proof {
            assert(hs.subrange(0, hs.len() as int) =~= hs);
        }
        Ok(Response { status_code, version, headers: table, body })
    }
}

} // verus!

use vstd::prelude::*;

verus! {

use crate::dict::Dict;
use crate::request::Request;
use crate::response::Response;
use crate::test::Test;

/// What can go wrong while assembling the configuration.
#[derive(Debug)]
pub enum Error {
    /// Reading a file failed; carries the report.
    Io(String),
    /// A file could not be decoded; carries the report.
    Yaml(String),
    /// A path could not be used; carries the report.
    Path(String),
    /// A named context is not declared.
    ContextNotFound(String),
}

/// Everything an invocation works from: named contexts, request
/// templates, seeded responses and tests.
pub struct Config {
    pub contexts: Dict<Dict<String>>,
    pub requests: Dict<Request>,
    pub responses: Dict<Response>,
    pub tests: Dict<Test>,
}

/// The merged variable set a list of context names selects, later
/// names overriding earlier ones.
pub open spec fn merged_contexts(
    ctxs: Map<Seq<char>, Dict<String>>,
    ns: Seq<Seq<char>>,
) -> Map<Seq<char>, String>
    decreases ns.len(),
{
    if ns.len() == 0 {
        Map::empty()
    } else {
        merged_contexts(ctxs, ns.drop_last()).union_prefer_right(ctxs[ns.last()]@)
    }
}

/// The first position whose name is not declared, else the length.
pub open spec fn first_missing(
    ctxs: Map<Seq<char>, Dict<String>>,
    ns: Seq<Seq<char>>,
    i: int,
) -> int
    decreases ns.len() - i,
{
    if 0 <= i && i < ns.len() {
        if !ctxs.contains_key(ns[i]) {
            i
        } else {
            first_missing(ctxs, ns, i + 1)
        }
    } else {
        ns.len() as int
    }
}

impl Config {
    pub open spec fn wf(&self) -> bool {
        &&& self.contexts.wf()
        &&& self.requests.wf()
        &&& self.responses.wf()
        &&& self.tests.wf()
    }

    /// An empty configuration.
    pub fn new_empty() -> (r: Self)
        ensures
            r.wf(),
            r.contexts@ =~= Map::<Seq<char>, Dict<String>>::empty(),
            r.requests@ =~= Map::<Seq<char>, Request>::empty(),
            r.responses@ =~= Map::<Seq<char>, Response>::empty(),
            r.tests@ =~= Map::<Seq<char>, Test>::empty(),
    {
        Config {
            contexts: Dict::new(),
            requests: Dict::new(),
            responses: Dict::new(),
            tests: Dict::new(),
        }
    }

    /// Folds another configuration in; on a shared name the other wins.
    pub fn merge(&mut self, other: Config)
        requires
            old(self).wf(),
        ensures
            final(self).wf(),
            final(self).contexts@ == old(self).contexts@.union_prefer_right(other.contexts@),
            final(self).requests@ == old(self).requests@.union_prefer_right(other.requests@),
            final(self).responses@ == old(self).responses@.union_prefer_right(other.responses@),
            final(self).tests@ == old(self).tests@.union_prefer_right(other.tests@),
    {
        let Config { contexts, requests, responses, tests } = other;
        self.contexts.extend(contexts);
        self.requests.extend(requests);
        self.responses.extend(responses);
        self.tests.extend(tests);
    }

    /// The variable set the named contexts build up, later names
    /// winning on a shared key; the first unknown name is the error.
    pub fn merge_contexts(&self, names: &[String]) -> (r: Result<Dict<String>, Error>)
        requires
            self.wf(),
        ensures
            r is Ok <==> (forall|i: int|
                0 <= i < names@.len() ==> self.contexts@.contains_key(#[trigger] names@[i]@)),
            r matches Ok(c) ==> c.wf() && c@ == merged_contexts(
                self.contexts@,
                crate::results::names_view(names@),
            ),
            r matches Err(e) ==> e matches Error::ContextNotFound(n) && n@ == names@[first_missing(
                self.contexts@,
                crate::results::names_view(names@),
                0,
            )]@,
    {
        let ghost ns = crate::results::names_view(names@);
        let mut out: Dict<String> = Dict::new();
        let mut i: usize = 0;
        proof {
            assert(out@ =~= merged_contexts(self.contexts@, ns.subrange(0, 0)));
        }
        while i < names.len()
            invariant
                i <= names@.len(),
                ns == crate::results::names_view(names@),
                self.wf(),
                out.wf(),
                out@ == merged_contexts(self.contexts@, ns.subrange(0, i as int)),
                forall|j: int| 0 <= j < i ==> self.contexts@.contains_key(#[trigger] names@[j]@),
                first_missing(self.contexts@, ns, 0) == first_missing(self.contexts@, ns, i as int),
            decreases names@.len() - i,
        {
            match self.contexts.get(names[i].as_str()) {
                Some(c) => {
                    let ghost prefix = ns.subrange(0, i as int);
                    out.extend(c.duplicate());
                    proof {
                        let stepped = ns.subrange(0, i + 1);
                        assert(stepped.drop_last() =~= prefix);
                        assert(stepped.last() == ns[i as int]);
                    }
                }
                None => {
                    return Err(Error::ContextNotFound(names[i].clone()));
                }
            }
            i = i + 1;
        }
        proof {
            assert(ns.subrange(0, ns.len() as int) =~= ns);
        }
        Ok(out)
    }
}

} // verus!

//! The target of the parse: one HTTP mock route, as a structured descriptor.

use vstd::prelude::*;

use crate::tokenizer::tokens::str_eq;

verus! {

/// The HTTP methods a mock route can answer.
#[derive(Debug, Clone, PartialEq, Eq)]
pub enum HttpMethods {
    GET,
    POST,
    PUT,
    PATCH,
    DELETE,
}

impl HttpMethods {
    /// The method a name denotes: a case-sensitive exact match against the
    /// five supported spellings.
    pub open spec fn spec_from_name(name: Seq<char>) -> Option<HttpMethods> {
        if name == "GET"@ {
            Some(HttpMethods::GET)
        } else if name == "POST"@ {
            Some(HttpMethods::POST)
        } else if name == "PUT"@ {
            Some(HttpMethods::PUT)
        } else if name == "PATCH"@ {
            Some(HttpMethods::PATCH)
        } else if name == "DELETE"@ {
            Some(HttpMethods::DELETE)
        } else {
            None
        }
    }

    /// Looks a method up by its name.
    pub fn from_name(name: &str) -> (r: Option<HttpMethods>)
        ensures
            r == Self::spec_from_name(name@),
    {
        if str_eq(name, "GET") {
            Some(HttpMethods::GET)
        } else if str_eq(name, "POST") {
            Some(HttpMethods::POST)
        } else if str_eq(name, "PUT") {
            Some(HttpMethods::PUT)
        } else if str_eq(name, "PATCH") {
            Some(HttpMethods::PATCH)
        } else if str_eq(name, "DELETE") {
            Some(HttpMethods::DELETE)
        } else {
            None
        }
    }

    /// The canonical spelling of the method.
    pub fn name(&self) -> (r: &'static str)
        ensures
            Self::spec_from_name(r@) == Some(*self),
    {
        proof {
            reveal_strlit("GET");
            reveal_strlit("POST");
            reveal_strlit("PUT");
            reveal_strlit("PATCH");
            reveal_strlit("DELETE");
            assert("GET"@.len() == 3);
            assert("POST"@.len() == 4);
            assert("PUT"@.len() == 3);
            assert("PATCH"@.len() == 5);
            assert("DELETE"@.len() == 6);
            assert("GET"@[0] == 'G');
            assert("PUT"@[0] == 'P');
        }
        match self {
            HttpMethods::GET => "GET",
            HttpMethods::POST => "POST",
            HttpMethods::PUT => "PUT",
            HttpMethods::PATCH => "PATCH",
            HttpMethods::DELETE => "DELETE",
        }
    }
}

/// Everything the server needs to answer one mock route.
///
/// `http_response_body` is only ever set by the import path (a body captured
/// from the route text); `http_response_path` belongs to the interactive
/// entry path and is never set by the parser.
#[derive(Debug, Clone, PartialEq, Eq)]
pub struct ApplicationRequirements {
    pub path: String,
    pub http_method: HttpMethods,
    pub http_response_status: u16,
    pub http_response_body: Option<String>,
    pub http_response_path: Option<String>,
    pub delay: Option<usize>,
}

/// The mathematical model of [`ApplicationRequirements`]: the same record
/// with every text as a sequence of characters.
pub struct RequirementsModel {
    pub path: Seq<char>,
    pub http_method: HttpMethods,
    pub http_response_status: u16,
    pub http_response_body: Option<Seq<char>>,
    pub http_response_path: Option<Seq<char>>,
    pub delay: Option<usize>,
}

impl View for ApplicationRequirements {
    type V = RequirementsModel;

    open spec fn view(&self) -> RequirementsModel {
        RequirementsModel {
            path: self.path@,
            http_method: self.http_method,
            http_response_status: self.http_response_status,
            http_response_body: match self.http_response_body {
                Some(body) => Some(body@),
                None => None,
            },
            http_response_path: match self.http_response_path {
                Some(path) => Some(path@),
                None => None,
            },
            delay: self.delay,
        }
    }
}

/// The models of a sequence of requirements, in order.
pub open spec fn requirement_views(reqs: Seq<ApplicationRequirements>) -> Seq<RequirementsModel> {
    Seq::new(reqs.len(), |i: int| reqs[i]@)
}

} // verus!

use crate::error::{Error, ErrorView};
use crate::text::text_eq;
use vstd::prelude::*;

verus! {

/// HTTP request methods.
#[derive(Debug, Clone, Copy, PartialEq, Eq, Structural)]
pub enum Method {
    Head,
    Get,
    Delete,
    Post,
    Patch,
    Put,
    Connect,
    Trace,
    Options,
}

/// The diagnostic for a token that names no method.
pub open spec fn unknown_method_message(token: Seq<char>) -> Seq<char> {
    "couldn't parse given method: "@ + token
}

impl Method {
    /// The method's wire token.
    pub open spec fn token(self) -> Seq<char> {
        match self {
            Method::Head => "HEAD"@,
            Method::Get => "GET"@,
            Method::Delete => "DELETE"@,
            Method::Post => "POST"@,
            Method::Patch => "PATCH"@,
            Method::Put => "PUT"@,
            Method::Connect => "CONNECT"@,
            Method::Trace => "TRACE"@,
            Method::Options => "OPTIONS"@,
        }
    }

    /// The method whose token is exactly `t`, if any (case-sensitive).
    pub open spec fn from_token(t: Seq<char>) -> Option<Method> {
        if t == "HEAD"@ {
            Some(Method::Head)
        } else if t == "GET"@ {
            Some(Method::Get)
        } else if t == "DELETE"@ {
            Some(Method::Delete)
        } else if t == "POST"@ {
            Some(Method::Post)
        } else if t == "PATCH"@ {
            Some(Method::Patch)
        } else if t == "PUT"@ {
            Some(Method::Put)
        } else if t == "CONNECT"@ {
            Some(Method::Connect)
        } else if t == "TRACE"@ {
            Some(Method::Trace)
        } else if t == "OPTIONS"@ {
            Some(Method::Options)
        } else {
            None
        }
    }

    /// Every method is read back from its own token.
    pub proof fn lemma_token_round_trip(self)
        ensures
            Method::from_token(self.token()) == Some(self),
    {
        reveal_strlit("HEAD");
        assert("HEAD"@.len() == 4 && "HEAD"@[0] == 'H');
        reveal_strlit("GET");
        assert("GET"@.len() == 3 && "GET"@[0] == 'G');
        reveal_strlit("DELETE");
        assert("DELETE"@.len() == 6 && "DELETE"@[0] == 'D');
        reveal_strlit("POST");
        assert("POST"@.len() == 4 && "POST"@[0] == 'P');
        reveal_strlit("PATCH");
        assert("PATCH"@.len() == 5 && "PATCH"@[0] == 'P');
        reveal_strlit("PUT");
        assert("PUT"@.len() == 3 && "PUT"@[0] == 'P');
        reveal_strlit("CONNECT");
        assert("CONNECT"@.len() == 7 && "CONNECT"@[0] == 'C');
        reveal_strlit("TRACE");
        assert("TRACE"@.len() == 5 && "TRACE"@[0] == 'T');
        reveal_strlit("OPTIONS");
        assert("OPTIONS"@.len() == 7 && "OPTIONS"@[0] == 'O');
    }

    /// A method token is non-empty uppercase ASCII.
    pub proof fn lemma_token_ascii(self)
        ensures
            self.token().len() > 0,
            forall|i: int|
                0 <= i < self.token().len() ==> 'A' <= #[trigger] self.token()[i] <= 'Z',
    {
        match self {
            Method::Head => {
                reveal_strlit("HEAD");
                assert(self.token() =~= seq!['H', 'E', 'A', 'D']);
            },
            Method::Get => {
                reveal_strlit("GET");
                assert(self.token() =~= seq!['G', 'E', 'T']);
            },
            Method::Delete => {
                reveal_strlit("DELETE");
                assert(self.token() =~= seq!['D', 'E', 'L', 'E', 'T', 'E']);
            },
            Method::Post => {
                reveal_strlit("POST");
                assert(self.token() =~= seq!['P', 'O', 'S', 'T']);
            },
            Method::Patch => {
                reveal_strlit("PATCH");
                assert(self.token() =~= seq!['P', 'A', 'T', 'C', 'H']);
            },
            Method::Put => {
                reveal_strlit("PUT");
                assert(self.token() =~= seq!['P', 'U', 'T']);
            },
            Method::Connect => {
                reveal_strlit("CONNECT");
                assert(self.token() =~= seq!['C', 'O', 'N', 'N', 'E', 'C', 'T']);
            },
            Method::Trace => {
                reveal_strlit("TRACE");
                assert(self.token() =~= seq!['T', 'R', 'A', 'C', 'E']);
            },
            Method::Options => {
                reveal_strlit("OPTIONS");
                assert(self.token() =~= seq!['O', 'P', 'T', 'I', 'O', 'N', 'S']);
            },
        }
    }

    /// Looks `token` up among the method tokens, exactly and case-sensitively.
    pub fn parse(token: &str) -> (r: Result<Method, Error>)
        ensures
            match Method::from_token(token@) {
                Some(m) => r == Ok::<Method, Error>(m),
                None => r matches Err(e) && e@ == ErrorView::MalformedRequestLine(
                    unknown_method_message(token@),
                ),
            },
    {
        if text_eq(token, "HEAD") {
            Ok(Method::Head)
        } else if text_eq(token, "GET") {
            Ok(Method::Get)
        } else if text_eq(token, "DELETE") {
            Ok(Method::Delete)
        } else if text_eq(token, "POST") {
            Ok(Method::Post)
        } else if text_eq(token, "PATCH") {
            Ok(Method::Patch)
        } else if text_eq(token, "PUT") {
            Ok(Method::Put)
        } else if text_eq(token, "CONNECT") {
            Ok(Method::Connect)
        } else if text_eq(token, "TRACE") {
            Ok(Method::Trace)
        } else if text_eq(token, "OPTIONS") {
            Ok(Method::Options)
        } else {
            let prefix = "couldn't parse given method: ".to_owned();
            Err(Error::MalformedRequestLine(prefix.concat(token)))
        }
    }

    /// The method's wire token, as text.
    pub fn to_string(&self) -> (r: String)
        ensures
            r@ == self.token(),
    {
        match self {
            Method::Head => "HEAD".to_owned(),
            Method::Get => "GET".to_owned(),
            Method::Delete => "DELETE".to_owned(),
            Method::Post => "POST".to_owned(),
            Method::Patch => "PATCH".to_owned(),
            Method::Put => "PUT".to_owned(),
            Method::Connect => "CONNECT".to_owned(),
            Method::Trace => "TRACE".to_owned(),
            Method::Options => "OPTIONS".to_owned(),
        }
    }
}

} // verus!

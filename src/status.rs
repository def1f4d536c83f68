use vstd::prelude::*;

verus! {

/// The response statuses this server sends.
#[derive(Debug, Clone, Copy, PartialEq, Eq, Structural)]
pub enum Status {
    Okay,
    Accepted,
    NotFound,
}

impl Status {
    /// The numeric status code.
    pub open spec fn spec_code(self) -> u16 {
        match self {
            Status::Okay => 200,
            Status::Accepted => 202,
            Status::NotFound => 404,
        }
    }

    /// The status as it stands in a response line: code, space, reason.
    pub open spec fn token(self) -> Seq<char> {
        match self {
            Status::Okay => "200 OK"@,
            Status::Accepted => "202 Accepted"@,
            Status::NotFound => "404 Not Found"@,
        }
    }

    /// The numeric status code.
    pub fn code(&self) -> (r: u16)
        ensures
            r == self.spec_code(),
    {
        match self {
            Status::Okay => 200,
            Status::Accepted => 202,
            Status::NotFound => 404,
        }
    }

    /// The status as it stands in a response line, e.g. `404 Not Found`.
    pub fn to_string(&self) -> (r: String)
        ensures
            r@ == self.token(),
    {
        match self {
            Status::Okay => "200 OK".to_owned(),
            Status::Accepted => "202 Accepted".to_owned(),
            Status::NotFound => "404 Not Found".to_owned(),
        }
    }
}

} // verus!

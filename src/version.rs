use crate::error::{Error, ErrorView};
use crate::text::text_eq;
use vstd::prelude::*;

verus! {

/// HTTP protocol versions.
#[derive(Debug, Clone, Copy, PartialEq, Eq, Structural)]
pub enum Version {
    V0_9,
    V1_0,
    V1_1,
    V2,
    V3,
}

/// The diagnostic for a token that names no version.
pub open spec fn unknown_version_message(token: Seq<char>) -> Seq<char> {
    "couldn't parse given version: "@ + token
}

impl Version {
    /// The version's wire token.
    pub open spec fn token(self) -> Seq<char> {
        match self {
            Version::V0_9 => "HTTP/0.9"@,
            Version::V1_0 => "HTTP/1.0"@,
            Version::V1_1 => "HTTP/1.1"@,
            Version::V2 => "HTTP/2"@,
            Version::V3 => "HTTP/3"@,
        }
    }

    /// The version whose token is exactly `t`, if any.
    pub open spec fn from_token(t: Seq<char>) -> Option<Version> {
        if t == "HTTP/0.9"@ {
            Some(Version::V0_9)
        } else if t == "HTTP/1.0"@ {
            Some(Version::V1_0)
        } else if t == "HTTP/1.1"@ {
            Some(Version::V1_1)
        } else if t == "HTTP/2"@ {
            Some(Version::V2)
        } else if t == "HTTP/3"@ {
            Some(Version::V3)
        } else {
            None
        }
    }

    /// Every version is read back from its own token.
    pub proof fn lemma_token_round_trip(self)
        ensures
            Version::from_token(self.token()) == Some(self),
    {
        reveal_strlit("HTTP/0.9");
        reveal_strlit("HTTP/1.0");
        reveal_strlit("HTTP/1.1");
        reveal_strlit("HTTP/2");
        reveal_strlit("HTTP/3");
        assert("HTTP/0.9"@.len() == 8 && "HTTP/0.9"@[7] == '9');
        assert("HTTP/1.0"@.len() == 8 && "HTTP/1.0"@[7] == '0');
        assert("HTTP/1.1"@.len() == 8 && "HTTP/1.1"@[7] == '1');
        assert("HTTP/2"@.len() == 6 && "HTTP/2"@[5] == '2');
        assert("HTTP/3"@.len() == 6 && "HTTP/3"@[5] == '3');
    }

    /// A version token is non-empty printable ASCII without spaces.
    pub proof fn lemma_token_ascii(self)
        ensures
            self.token().len() > 0,
            forall|i: int|
                0 <= i < self.token().len() ==> '!' <= #[trigger] self.token()[i] <= '~',
    {
        match self {
            Version::V0_9 => {
                reveal_strlit("HTTP/0.9");
                assert(self.token() =~= seq!['H', 'T', 'T', 'P', '/', '0', '.', '9']);
            },
            Version::V1_0 => {
                reveal_strlit("HTTP/1.0");
                assert(self.token() =~= seq!['H', 'T', 'T', 'P', '/', '1', '.', '0']);
            },
            Version::V1_1 => {
                reveal_strlit("HTTP/1.1");
                assert(self.token() =~= seq!['H', 'T', 'T', 'P', '/', '1', '.', '1']);
            },
            Version::V2 => {
                reveal_strlit("HTTP/2");
                assert(self.token() =~= seq!['H', 'T', 'T', 'P', '/', '2']);
            },
            Version::V3 => {
                reveal_strlit("HTTP/3");
                assert(self.token() =~= seq!['H', 'T', 'T', 'P', '/', '3']);
            },
        }
    }

    /// Looks `token` up among the version tokens, exactly.
    pub fn parse(token: &str) -> (r: Result<Version, Error>)
        ensures
            match Version::from_token(token@) {
                Some(v) => r == Ok::<Version, Error>(v),
                None => r matches Err(e) && e@ == ErrorView::MalformedRequestLine(
                    unknown_version_message(token@),
                ),
            },
    {
        if text_eq(token, "HTTP/0.9") {
            Ok(Version::V0_9)
        } else if text_eq(token, "HTTP/1.0") {
            Ok(Version::V1_0)
        } else if text_eq(token, "HTTP/1.1") {
            Ok(Version::V1_1)
        } else if text_eq(token, "HTTP/2") {
            Ok(Version::V2)
        } else if text_eq(token, "HTTP/3") {
            Ok(Version::V3)
        } else {
            let prefix = "couldn't parse given version: ".to_owned();
            Err(Error::MalformedRequestLine(prefix.concat(token)))
        }
    }

    /// The version's wire token, as text.
    pub fn to_string(&self) -> (r: String)
        ensures
            r@ == self.token(),
    {
        match self {
            Version::V0_9 => "HTTP/0.9".to_owned(),
            Version::V1_0 => "HTTP/1.0".to_owned(),
            Version::V1_1 => "HTTP/1.1".to_owned(),
            Version::V2 => "HTTP/2".to_owned(),
            Version::V3 => "HTTP/3".to_owned(),
        }
    }
}

} // verus!

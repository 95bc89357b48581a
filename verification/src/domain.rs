//! The data carried from a parsed documentation file to the executor: a
//! test case pairs a request to send with the response expected back.

use crate::path::Path;
use vstd::prelude::*;
use vstd::string::StringExecFns;

verus! {

/// An HTTP method the runner can send.
#[derive(Clone, Copy, PartialEq, Eq, Structural, Debug)]
pub enum HttpMethod {
    Get,
    Post,
    Put,
    Delete,
}

/// The method's name as sent on the wire.
pub open spec fn spec_method_text(m: HttpMethod) -> Seq<char> {
    match m {
        HttpMethod::Get => "GET"@,
        HttpMethod::Post => "POST"@,
        HttpMethod::Put => "PUT"@,
        HttpMethod::Delete => "DELETE"@,
    }
}

/// The upper-case form of a character, for the ASCII letters only.
pub open spec fn upper_char(c: char) -> char {
    if c == 'a' { 'A' } else if c == 'b' { 'B' } else if c == 'c' { 'C' }
    else if c == 'd' { 'D' } else if c == 'e' { 'E' } else if c == 'f' { 'F' }
    else if c == 'g' { 'G' } else if c == 'h' { 'H' } else if c == 'i' { 'I' }
    else if c == 'j' { 'J' } else if c == 'k' { 'K' } else if c == 'l' { 'L' }
    else if c == 'm' { 'M' } else if c == 'n' { 'N' } else if c == 'o' { 'O' }
    else if c == 'p' { 'P' } else if c == 'q' { 'Q' } else if c == 'r' { 'R' }
    else if c == 's' { 'S' } else if c == 't' { 'T' } else if c == 'u' { 'U' }
    else if c == 'v' { 'V' } else if c == 'w' { 'W' } else if c == 'x' { 'X' }
    else if c == 'y' { 'Y' } else if c == 'z' { 'Z' } else { c }
}

/// The upper-case form of a text, for the ASCII letters only.
pub open spec fn upper_text(s: Seq<char>) -> Seq<char> {
    Seq::new(s.len(), |i: int| upper_char(s[i]))
}

/// Which method a name denotes, letter case ignored.
pub open spec fn spec_parse_method(s: Seq<char>) -> Option<HttpMethod> {
    if upper_text(s) == "GET"@ {
        Some(HttpMethod::Get)
    } else if upper_text(s) == "POST"@ {
        Some(HttpMethod::Post)
    } else if upper_text(s) == "PUT"@ {
        Some(HttpMethod::Put)
    } else if upper_text(s) == "DELETE"@ {
        Some(HttpMethod::Delete)
    } else {
        None
    }
}

impl HttpMethod {
    /// The method's name, as sent on the wire.
    pub fn as_text(&self) -> (r: String)
        ensures
            r@ == spec_method_text(*self),
    {
        match self {
            HttpMethod::Get => {
                let mut out = String::new();
                out.append("GET");
                out
            },
            HttpMethod::Post => {
                let mut out = String::new();
                out.append("POST");
                out
            },
            HttpMethod::Put => {
                let mut out = String::new();
                out.append("PUT");
                out
            },
            HttpMethod::Delete => {
                let mut out = String::new();
                out.append("DELETE");
                out
            },
        }
    }

    /// Parses a method name, letter case ignored; an unknown name is an
    /// error carrying that name.
    pub fn parse(s: &str) -> (r: Result<HttpMethod, String>)
        ensures
            match r {
                Ok(m) => spec_parse_method(s@) == Some(m),
                Err(_) => spec_parse_method(s@) is None,
            },
    {
        let chars = crate::path::str_chars(s);
        let mut up: Vec<char> = Vec::new();
        let n = chars.len();
        for k in 0..n
            invariant
                n == chars@.len(),
                up@.len() == k,
                forall|i: int| 0 <= i < k ==> up@[i] == upper_char(chars@[i]),
            decreases n - k,
        {
            let c = chars[k];
            let uc = if c == 'a' { 'A' } else if c == 'b' { 'B' } else if c == 'c' { 'C' }
            else if c == 'd' { 'D' } else if c == 'e' { 'E' } else if c == 'f' { 'F' }
            else if c == 'g' { 'G' } else if c == 'h' { 'H' } else if c == 'i' { 'I' }
            else if c == 'j' { 'J' } else if c == 'k' { 'K' } else if c == 'l' { 'L' }
            else if c == 'm' { 'M' } else if c == 'n' { 'N' } else if c == 'o' { 'O' }
            else if c == 'p' { 'P' } else if c == 'q' { 'Q' } else if c == 'r' { 'R' }
            else if c == 's' { 'S' } else if c == 't' { 'T' } else if c == 'u' { 'U' }
            else if c == 'v' { 'V' } else if c == 'w' { 'W' } else if c == 'x' { 'X' }
            else if c == 'y' { 'Y' } else if c == 'z' { 'Z' } else { c };
            up.push(uc);
        }
        proof {
            assert(up@ =~= upper_text(s@));
        }
        if chars_eq_lit(&up, "GET") {
            Ok(HttpMethod::Get)
        } else if chars_eq_lit(&up, "POST") {
            Ok(HttpMethod::Post)
        } else if chars_eq_lit(&up, "PUT") {
            Ok(HttpMethod::Put)
        } else if chars_eq_lit(&up, "DELETE") {
            Ok(HttpMethod::Delete)
        } else {
            let mut out = String::new();
            out.append(s);
            out.append(" is not a valid http method");
            Err(out)
        }
    }
}

/// Whether the characters equal the text.
pub(crate) fn chars_eq_lit(v: &Vec<char>, lit: &str) -> (r: bool)
    ensures
        r == (v@ == lit@),
{
    let n = lit.unicode_len();
    if v.len() != n {
        proof {
            assert(v@.len() != lit@.len());
        }
        return false;
    }
    for k in 0..n
        invariant
            n == lit@.len(),
            v@.len() == n,
            forall|i: int| 0 <= i < k ==> v@[i] == lit@[i],
        decreases n - k,
    {
        if v[k] != lit.get_char(k) {
            return false;
        }
    }
    proof {
        assert(v@ =~= lit@);
    }
    true
}

/// How often a failed request is retried, and the pause between tries.
#[derive(Clone, Copy, PartialEq, Eq, Structural, Debug)]
pub struct RetryPolicy {
    /// Number of tries before the case is reported as failed.
    pub max_retries: u64,
    /// Pause between tries, in milliseconds.
    pub delay: u64,
}

impl Default for RetryPolicy {
    /// One try, no pause.
    fn default() -> (r: RetryPolicy)
        ensures
            r.max_retries == 1 && r.delay == 0,
    {
        RetryPolicy { max_retries: 1, delay: 0 }
    }
}

/// A request to send: method, headers, target and optional body, with the
/// line of the documentation file it was read from.
pub struct Request {
    pub http_method: HttpMethod,
    pub headers: Vec<(String, String)>,
    pub uri: String,
    pub body: Option<String>,
    pub line_number: usize,
}

/// The response expected back: status code, headers and optional body, the
/// addresses to exclude from comparison or to compare unordered, the
/// variables to capture, and the retry policy, with the line of the
/// documentation file it was read from.
pub struct Response {
    pub code: u16,
    pub headers: Vec<(String, String)>,
    pub ignore_paths: Vec<String>,
    pub ignore_orders: Vec<String>,
    pub body: Option<String>,
    pub line_number: usize,
    pub variables: Vec<(String, Path)>,
    pub retries: RetryPolicy,
}

/// One test case: the request to send and the response expected back.
pub struct TestCase {
    pub request: Request,
    pub response: Response,
}

} // verus!

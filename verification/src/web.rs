//! What the small web server answers: which page a request line gets,
//! with which status line and after which delay, and the bytes of the
//! HTTP response around that page.
use vstd::prelude::*;
use crate::text::push_char;
use vstd::string::StrSliceExecFns;

verus! {

/// The answer to a request line.
pub struct Route {
    pub status_line: &'static str,
    /// The file that holds the page.
    pub page: &'static str,
    /// Seconds to wait before answering.
    pub delay_secs: u64,
}

/// `GET /` and `GET /sleep` get the hello page (the latter after five
/// seconds); every other request gets the not-found page.
pub open spec fn route_spec(request_line: Seq<char>) -> (Seq<char>, Seq<char>, u64) {
    if request_line == "GET / HTTP/1.1"@ {
        ("HTTP/1.1 200 OK"@, "./resources/hello.html"@, 0)
    } else if request_line == "GET /sleep HTTP/1.1"@ {
        ("HTTP/1.1 200 OK"@, "./resources/hello.html"@, 5)
    } else {
        ("HTTP/1.1 404 NOT FOUND"@, "./resources/404.html"@, 0)
    }
}

/// The decimal digits of `n`, most significant first.
pub open spec fn decimal(n: nat) -> Seq<char>
    decreases n,
{
    if n < 10 {
        seq![digit(n)]
    } else {
        decimal(n / 10).push(digit(n % 10))
    }
}

/// The character of a decimal digit.
pub open spec fn digit(d: nat) -> char {
    seq!['0', '1', '2', '3', '4', '5', '6', '7', '8', '9'][d as int]
}

/// A status line, a `Content-Length` header with the byte length of
/// `content`, an empty line, and `content`.
pub open spec fn response_spec(status_line: Seq<char>, content: &str) -> Seq<char> {
    status_line + "\r\nContent-Length: "@ + decimal(content.len() as nat) + "\r\n\r\n"@
        + content@
}

/// Whether two strings hold the same characters.
fn str_eq(a: &str, b: &str) -> (r: bool)
    ensures
        r == (a@ == b@),
{
    let n = a.unicode_len();
    let m = b.unicode_len();
    if n != m {
        return false;
    }
    let mut i: usize = 0;
    while i < n
        invariant
            n == a@.len(),
            m == b@.len(),
            n == m,
            i <= n,
            forall|j: int| 0 <= j < i ==> a@[j] == b@[j],
        decreases n - i,
    {
        if a.get_char(i) != b.get_char(i) {
            return false;
        }
        i = i + 1;
    }
    assert(a@ =~= b@);
    true
}

/// Which page, status line and delay answer `request_line`.
pub fn route(request_line: &str) -> (r: Route)
    ensures
        (r.status_line@, r.page@, r.delay_secs) == route_spec(request_line@),
{
    if str_eq(request_line, "GET / HTTP/1.1") {
        Route { status_line: "HTTP/1.1 200 OK", page: "./resources/hello.html", delay_secs: 0 }
    } else if str_eq(request_line, "GET /sleep HTTP/1.1") {
        Route { status_line: "HTTP/1.1 200 OK", page: "./resources/hello.html", delay_secs: 5 }
    } else {
        Route {
            status_line: "HTTP/1.1 404 NOT FOUND",
            page: "./resources/404.html",
            delay_secs: 0,
        }
    }
}

/// Appends the decimal digits of `n`.
fn write_decimal(out: &mut String, n: usize)
    ensures
        final(out)@ == old(out)@ + decimal(n as nat),
    decreases n,
{
    let digits = ['0', '1', '2', '3', '4', '5', '6', '7', '8', '9'];
    proof {
        assert(digits@ =~= seq!['0', '1', '2', '3', '4', '5', '6', '7', '8', '9']);
    }
    if n >= 10 {
        write_decimal(out, n / 10);
    }
    push_char(out, digits[n % 10]);
    assert(out@ =~= old(out)@ + decimal(n as nat));
}

/// The HTTP response that carries `content` with `status_line`.
pub fn http_response(status_line: &str, content: &str) -> (r: String)
    ensures
        r@ == response_spec(status_line@, content),
{
    let length = content.len();
    let mut resp = String::new();
    resp.append(status_line);
    resp.append("\r\nContent-Length: ");
    write_decimal(&mut resp, length);
    resp.append("\r\n\r\n");
    resp.append(content);
    assert(resp@ =~= response_spec(status_line@, content));
    resp
}

} // verus!

//! Which page answers a request line, and how the answer is framed.
use vstd::prelude::*;
use vstd::string::StringSliceAdditionalSpecFns;
use vstd::utf8::encode_utf8;

verus! {

/// How a request is answered.
#[derive(Clone, Copy, Debug, PartialEq, Eq, Structural)]
pub enum Route {
    /// The greeting page, at once.
    Hello,
    /// The greeting page, after holding the worker for a while.
    SleepThenHello,
    /// The not-found page.
    NotFound,
}

/// The route for a request line; `None` for an empty line, which gets no
/// answer at all.
pub open spec fn route_of(line: Seq<char>) -> Option<Route> {
    if line.len() == 0 {
        None
    } else if line == "GET / HTTP/1.1"@ {
        Some(Route::Hello)
    } else if line == "GET /sleep HTTP/1.1"@ {
        Some(Route::SleepThenHello)
    } else {
        Some(Route::NotFound)
    }
}

/// Whether two strings hold the same characters, decided on their bytes.
fn same_text(a: &str, b: &str) -> (r: bool)
    ensures
        r == (a@ == b@),
{
    let x = a.as_bytes();
    let y = b.as_bytes();
    proof {
        vstd::utf8::encode_utf8_decode_utf8(a@);
        vstd::utf8::encode_utf8_decode_utf8(b@);
    }
    if x.len() != y.len() {
        return false;
    }
    let mut i: usize = 0;
    while i < x.len()
        invariant
            x@ == a.spec_bytes(),
            y@ == b.spec_bytes(),
            x@.len() == y@.len(),
            i <= x@.len(),
            forall|j: int| 0 <= j < i ==> x@[j] == y@[j],
        decreases x@.len() - i,
    {
        if x[i] != y[i] {
            return false;
        }
        i = i + 1;
    }
    assert(x@ =~= y@);
    true
}

/// Picks the route for a request line.
pub fn handle_response(request_line: &str) -> (r: Option<Route>)
    ensures
        r == route_of(request_line@),
{
    if request_line.is_empty() {
        None
    } else if same_text(request_line, "GET / HTTP/1.1") {
        Some(Route::Hello)
    } else if same_text(request_line, "GET /sleep HTTP/1.1") {
        Some(Route::SleepThenHello)
    } else {
        Some(Route::NotFound)
    }
}

/// The status line sent for a route.
pub open spec fn status_line_of(r: Route) -> Seq<char> {
    match r {
        Route::NotFound => "HTTP/1.1 404 NOT FOUND"@,
        _ => "HTTP/1.1 200 OK"@,
    }
}

/// The page file whose contents answer a route.
pub open spec fn filename_of(r: Route) -> Seq<char> {
    match r {
        Route::NotFound => "pages/404.html"@,
        _ => "pages/hello.html"@,
    }
}

/// Seconds a worker holds a request of this route before answering it.
pub const SLEEP_SECS: u64 = 10;

impl Route {
    /// The status line that opens the answer.
    pub fn status_line(&self) -> (r: &'static str)
        ensures
            r@ == status_line_of(*self),
    {
        match self {
            Route::NotFound => "HTTP/1.1 404 NOT FOUND",
            _ => "HTTP/1.1 200 OK",
        }
    }

    /// The page file whose contents form the answer's body.
    pub fn filename(&self) -> (r: &'static str)
        ensures
            r@ == filename_of(*self),
    {
        match self {
            Route::NotFound => "pages/404.html",
            _ => "pages/hello.html",
        }
    }

    /// Seconds to hold the worker before answering.
    pub fn delay_secs(&self) -> (r: u64)
        ensures
            r == (if *self == Route::SleepThenHello { SLEEP_SECS } else { 0 }),
    {
        match self {
            Route::SleepThenHello => SLEEP_SECS,
            _ => 0,
        }
    }
}

/// The decimal digit character for `d < 10`.
pub open spec fn digit_char(d: nat) -> char {
    if d == 0 { '0' }
    else if d == 1 { '1' }
    else if d == 2 { '2' }
    else if d == 3 { '3' }
    else if d == 4 { '4' }
    else if d == 5 { '5' }
    else if d == 6 { '6' }
    else if d == 7 { '7' }
    else if d == 8 { '8' }
    else { '9' }
}

/// `n` written in decimal, without leading zeros.
pub open spec fn decimal(n: nat) -> Seq<char>
    decreases n,
{
    if n < 10 {
        seq![digit_char(n)]
    } else {
        decimal(n / 10) + seq![digit_char(n % 10)]
    }
}

/// The full response for a status line and a page: the status line, a
/// `Content-Length` header giving the page's length in bytes, a blank line,
/// and the page.
pub open spec fn response_of(status_line: Seq<char>, contents: Seq<char>) -> Seq<char> {
    status_line + "\r\nContent-Length:"@ + decimal(encode_utf8(contents).len()) + "\r\n\r\n"@ + contents
}

fn digit_str(d: usize) -> (r: &'static str)
    requires
        d < 10,
    ensures
        r@ == seq![digit_char(d as nat)],
{
    proof {
        reveal_strlit("0");
        reveal_strlit("1");
        reveal_strlit("2");
        reveal_strlit("3");
        reveal_strlit("4");
        reveal_strlit("5");
        reveal_strlit("6");
        reveal_strlit("7");
        reveal_strlit("8");
        reveal_strlit("9");
    }
    let r = if d == 0 { "0" }
    else if d == 1 { "1" }
    else if d == 2 { "2" }
    else if d == 3 { "3" }
    else if d == 4 { "4" }
    else if d == 5 { "5" }
    else if d == 6 { "6" }
    else if d == 7 { "7" }
    else if d == 8 { "8" }
    else { "9" };
    assert(r@ =~= seq![digit_char(d as nat)]);
    r
}

fn push_decimal(out: &mut String, n: usize)
    ensures
        final(out)@ == old(out)@ + decimal(n as nat),
    decreases n,
{
    if n >= 10 {
        push_decimal(out, n / 10);
    }
    out.append(digit_str(n % 10));
    assert(final(out)@ =~= old(out)@ + decimal(n as nat));
}

/// Frames a page as a response under the given status line.
pub fn format_response(status_line: &str, contents: &str) -> (r: String)
    ensures
        r@ == response_of(status_line@, contents@),
{
    let mut out = String::from_str(status_line);
    out.append("\r\nContent-Length:");
    let bytes = contents.as_bytes();
    push_decimal(&mut out, bytes.len());
    out.append("\r\n\r\n");
    out.append(contents);
    assert(out@ =~= response_of(status_line@, contents@));
    out
}

} // verus!

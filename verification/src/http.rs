//! Request-routing helpers for the server around the pool: pure string
//! work, separated from the sockets and files that use its answers.

use vstd::prelude::*;
use vstd::string::*;

verus! {

/// How a request line is served: the landing page, the landing page
/// after a pause, or a file looked up under the web root.
#[derive(Clone, Copy, PartialEq, Eq, Structural, Debug)]
pub enum Route {
    Root,
    Sleep,
    Lookup,
}

/// `p` is a prefix of `s`.
pub open spec fn starts_with(s: Seq<char>, p: Seq<char>) -> bool {
    p.len() <= s.len() && s.subrange(0, p.len() as int) == p
}

/// Which route a request line takes: the two recognised request lines
/// are matched by prefix, anything else goes to the file lookup.
pub open spec fn route_of(s: Seq<char>) -> Route {
    if starts_with(s, "GET / HTTP/1.1\r\n"@) {
        Route::Root
    } else if starts_with(s, "GET /sleep HTTP/1.1\r\n"@) {
        Route::Sleep
    } else {
        Route::Lookup
    }
}

/// The whitespace that separates the tokens of a request line.
pub open spec fn is_space(c: char) -> bool {
    c == ' ' || c == '\t' || c == '\r' || c == '\n'
}

/// The first position at or after `i` holding a non-space character, or
/// the end of `s`.
pub open spec fn next_non_space(s: Seq<char>, i: int) -> int
    decreases s.len() - i when 0 <= i <= s.len()
{
    if i >= s.len() {
        s.len() as int
    } else if !is_space(s[i]) {
        i
    } else {
        next_non_space(s, i + 1)
    }
}

/// The first position at or after `i` holding a space character, or the
/// end of `s`.
pub open spec fn next_space(s: Seq<char>, i: int) -> int
    decreases s.len() - i when 0 <= i <= s.len()
{
    if i >= s.len() {
        s.len() as int
    } else if is_space(s[i]) {
        i
    } else {
        next_space(s, i + 1)
    }
}

/// Where the second whitespace-separated token of `s` begins.
pub open spec fn second_token_start(s: Seq<char>) -> int {
    next_non_space(s, next_space(s, next_non_space(s, 0)))
}

/// Where the second whitespace-separated token of `s` ends.
pub open spec fn second_token_end(s: Seq<char>) -> int {
    next_space(s, second_token_start(s))
}

/// The target named by a request line: its second whitespace-separated
/// token, or nothing when the line has no second token.
pub open spec fn request_target(s: Seq<char>) -> Option<Seq<char>> {
    if second_token_start(s) < s.len() {
        Some(s.subrange(second_token_start(s), second_token_end(s)))
    } else {
        None
    }
}

proof fn lemma_next_non_space_bounds(s: Seq<char>, i: int)
    requires
        0 <= i <= s.len(),
    ensures
        i <= next_non_space(s, i) <= s.len(),
        next_non_space(s, i) < s.len() ==> !is_space(s[next_non_space(s, i)]),
    decreases s.len() - i,
{
    if i < s.len() && is_space(s[i]) {
        lemma_next_non_space_bounds(s, i + 1);
    }
}

proof fn lemma_next_space_bounds(s: Seq<char>, i: int)
    requires
        0 <= i <= s.len(),
    ensures
        i <= next_space(s, i) <= s.len(),
    decreases s.len() - i,
{
    if i < s.len() && !is_space(s[i]) {
        lemma_next_space_bounds(s, i + 1);
    }
}

fn is_space_char(c: char) -> (b: bool)
    ensures
        b == is_space(c),
{
    c == ' ' || c == '\t' || c == '\r' || c == '\n'
}

fn scan_non_space(s: &str, from: usize) -> (r: usize)
    requires
        from <= s@.len(),
    ensures
        r == next_non_space(s@, from as int),
        from <= r <= s@.len(),
{
    proof {
        lemma_next_non_space_bounds(s@, from as int);
    }
    let n = s.unicode_len();
    let mut i: usize = from;
    while i < n
        invariant
            from <= i <= n,
            n == s@.len(),
            next_non_space(s@, from as int) == next_non_space(s@, i as int),
        decreases n - i,
    {
        if !is_space_char(s.get_char(i)) {
            return i;
        }
        i = i + 1;
    }
    i
}

fn scan_space(s: &str, from: usize) -> (r: usize)
    requires
        from <= s@.len(),
    ensures
        r == next_space(s@, from as int),
        from <= r <= s@.len(),
{
    proof {
        lemma_next_space_bounds(s@, from as int);
    }
    let n = s.unicode_len();
    let mut i: usize = from;
    while i < n
        invariant
            from <= i <= n,
            n == s@.len(),
            next_space(s@, from as int) == next_space(s@, i as int),
        decreases n - i,
    {
        if is_space_char(s.get_char(i)) {
            return i;
        }
        i = i + 1;
    }
    i
}

fn has_prefix(s: &str, p: &str) -> (b: bool)
    ensures
        b == starts_with(s@, p@),
{
    let n = p.unicode_len();
    if n > s.unicode_len() {
        return false;
    }
    let mut i: usize = 0;
    while i < n
        invariant
            i <= n,
            n == p@.len(),
            n <= s@.len(),
            forall|k: int| 0 <= k < i ==> s@[k] == p@[k],
        decreases n - i,
    {
        if s.get_char(i) != p.get_char(i) {
            proof {
                assert(s@.subrange(0, n as int)[i as int] == s@[i as int]);
            }
            return false;
        }
        i = i + 1;
    }
    proof {
        assert(s@.subrange(0, n as int) =~= p@);
    }
    true
}

/// Which route the given request line takes.
pub fn route(req: &str) -> (r: Route)
    ensures
        r == route_of(req@),
{
    if has_prefix(req, "GET / HTTP/1.1\r\n") {
        Route::Root
    } else if has_prefix(req, "GET /sleep HTTP/1.1\r\n") {
        Route::Sleep
    } else {
        Route::Lookup
    }
}

/// Resolves a name under the server's web root directory.
pub fn webroot(path: &str) -> (r: String)
    ensures
        r@ == "./webroot/"@ + path@,
{
    let mut r = String::from_str("./webroot/");
    r.append(path);
    r
}

/// The file a request line asks for, resolved under the web root: its
/// second whitespace-separated token, with the token's first character
/// (the leading slash) dropped, joined under `./webroot`.  Yields
/// nothing when the line has no second token.  Whether the named file
/// exists on disk is for the caller to find out.
pub fn find_file(request: &str) -> (r: Option<String>)
    ensures
        match r {
            Some(path) => request_target(request@) matches Some(t) && path@ == "./webroot/"@
                + t.drop_first(),
            None => request_target(request@) is None,
        },
{
    let n = request.unicode_len();
    let first_start = scan_non_space(request, 0);
    let first_end = scan_space(request, first_start);
    let start = scan_non_space(request, first_end);
    if start >= n {
        return None;
    }
    let end = scan_space(request, start);
    proof {
        lemma_next_non_space_bounds(request@, next_space(request@, next_non_space(request@, 0)));
        lemma_next_space_bounds(request@, 0);
        lemma_next_non_space_bounds(request@, 0);
        assert(!is_space(request@[start as int]));
        assert(next_space(request@, start as int) == next_space(request@, start as int + 1));
        lemma_next_space_bounds(request@, start as int + 1);
    }
    let tail = request.substring_char(start + 1, end);
    let mut path = String::from_str("./webroot/");
    path.append(tail);
    proof {
        let t = request_target(request@).unwrap();
        assert(tail@ =~= t.drop_first());
    }
    Some(path)
}

/// The status line of a response: success when the file was found, the
/// not-found status otherwise.
pub fn status_line(found: bool) -> (s: &'static str)
    ensures
        found ==> s@ == "HTTP/1.1 200 OK\r\n\r\n"@,
        !found ==> s@ == "HTTP/1.1 404 NOT FOUND\r\n\r\n"@,
{
    if found {
        "HTTP/1.1 200 OK\r\n\r\n"
    } else {
        "HTTP/1.1 404 NOT FOUND\r\n\r\n"
    }
}

/// The response the server writes back: the status line, then the body,
/// then a blank line.
pub fn build_response(status: &str, body: &str) -> (r: String)
    ensures
        r@ == status@ + body@ + "\r\n"@,
{
    let mut r = String::from_str(status);
    r.append(body);
    r.append("\r\n");
    proof {
        assert(r@ =~= status@ + body@ + "\r\n"@);
    }
    r
}

} // verus!

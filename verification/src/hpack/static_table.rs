//! The static table of RFC 7541 Appendix A.
use vstd::prelude::*;

verus! {

/// Number of entries in the static table. Dynamic indices start right after.
pub const STATIC_LEN: usize = 61;

/// Name and value of static entry `idx`, for `idx` from 1 to 61.
#[verifier::opaque]
pub open spec fn static_text(idx: int) -> (Seq<char>, Seq<char>) {
    if idx == 1 {
        (":authority"@, ""@)
    } else if idx == 2 {
        (":method"@, "GET"@)
    } else if idx == 3 {
        (":method"@, "POST"@)
    } else if idx == 4 {
        (":path"@, "/"@)
    } else if idx == 5 {
        (":path"@, "/index.html"@)
    } else if idx == 6 {
        (":scheme"@, "http"@)
    } else if idx == 7 {
        (":scheme"@, "https"@)
    } else if idx == 8 {
        (":status"@, "200"@)
    } else if idx == 9 {
        (":status"@, "204"@)
    } else if idx == 10 {
        (":status"@, "206"@)
    } else if idx == 11 {
        (":status"@, "304"@)
    } else if idx == 12 {
        (":status"@, "400"@)
    } else if idx == 13 {
        (":status"@, "404"@)
    } else if idx == 14 {
        (":status"@, "500"@)
    } else if idx == 15 {
        ("accept-charset"@, ""@)
    } else if idx == 16 {
        ("accept-encoding"@, "gzip, deflate"@)
    } else if idx == 17 {
        ("accept-language"@, ""@)
    } else if idx == 18 {
        ("accept-ranges"@, ""@)
    } else if idx == 19 {
        ("accept"@, ""@)
    } else if idx == 20 {
        ("access-control-allow-origin"@, ""@)
    } else if idx == 21 {
        ("age"@, ""@)
    } else if idx == 22 {
        ("allow"@, ""@)
    } else if idx == 23 {
        ("authorization"@, ""@)
    } else if idx == 24 {
        ("cache-control"@, ""@)
    } else if idx == 25 {
        ("content-disposition"@, ""@)
    } else if idx == 26 {
        ("content-encoding"@, ""@)
    } else if idx == 27 {
        ("content-language"@, ""@)
    } else if idx == 28 {
        ("content-length"@, ""@)
    } else if idx == 29 {
        ("content-location"@, ""@)
    } else if idx == 30 {
        ("content-range"@, ""@)
    } else if idx == 31 {
        ("content-type"@, ""@)
    } else if idx == 32 {
        ("cookie"@, ""@)
    } else if idx == 33 {
        ("date"@, ""@)
    } else if idx == 34 {
        ("etag"@, ""@)
    } else if idx == 35 {
        ("expect"@, ""@)
    } else if idx == 36 {
        ("expires"@, ""@)
    } else if idx == 37 {
        ("from"@, ""@)
    } else if idx == 38 {
        ("host"@, ""@)
    } else if idx == 39 {
        ("if-match"@, ""@)
    } else if idx == 40 {
        ("if-modified-since"@, ""@)
    } else if idx == 41 {
        ("if-none-match"@, ""@)
    } else if idx == 42 {
        ("if-range"@, ""@)
    } else if idx == 43 {
        ("if-unmodified-since"@, ""@)
    } else if idx == 44 {
        ("last-modified"@, ""@)
    } else if idx == 45 {
        ("link"@, ""@)
    } else if idx == 46 {
        ("location"@, ""@)
    } else if idx == 47 {
        ("max-forwards"@, ""@)
    } else if idx == 48 {
        ("proxy-authenticate"@, ""@)
    } else if idx == 49 {
        ("proxy-authorization"@, ""@)
    } else if idx == 50 {
        ("range"@, ""@)
    } else if idx == 51 {
        ("referer"@, ""@)
    } else if idx == 52 {
        ("refresh"@, ""@)
    } else if idx == 53 {
        ("retry-after"@, ""@)
    } else if idx == 54 {
        ("server"@, ""@)
    } else if idx == 55 {
        ("set-cookie"@, ""@)
    } else if idx == 56 {
        ("strict-transport-security"@, ""@)
    } else if idx == 57 {
        ("transfer-encoding"@, ""@)
    } else if idx == 58 {
        ("user-agent"@, ""@)
    } else if idx == 59 {
        ("vary"@, ""@)
    } else if idx == 60 {
        ("via"@, ""@)
    } else {
        ("www-authenticate"@, ""@)
    }
}

/// Looks up static entry `idx`.
pub fn static_entry(idx: usize) -> (r: (&'static str, &'static str))
    requires
        1 <= idx <= STATIC_LEN,
    ensures
        r.0@ == static_text(idx as int).0,
        r.1@ == static_text(idx as int).1,
{
    proof {
        reveal(static_text);
    }
    if idx == 1 {
        (":authority", "")
    } else if idx == 2 {
        (":method", "GET")
    } else if idx == 3 {
        (":method", "POST")
    } else if idx == 4 {
        (":path", "/")
    } else if idx == 5 {
        (":path", "/index.html")
    } else if idx == 6 {
        (":scheme", "http")
    } else if idx == 7 {
        (":scheme", "https")
    } else if idx == 8 {
        (":status", "200")
    } else if idx == 9 {
        (":status", "204")
    } else if idx == 10 {
        (":status", "206")
    } else if idx == 11 {
        (":status", "304")
    } else if idx == 12 {
        (":status", "400")
    } else if idx == 13 {
        (":status", "404")
    } else if idx == 14 {
        (":status", "500")
    } else if idx == 15 {
        ("accept-charset", "")
    } else if idx == 16 {
        ("accept-encoding", "gzip, deflate")
    } else if idx == 17 {
        ("accept-language", "")
    } else if idx == 18 {
        ("accept-ranges", "")
    } else if idx == 19 {
        ("accept", "")
    } else if idx == 20 {
        ("access-control-allow-origin", "")
    } else if idx == 21 {
        ("age", "")
    } else if idx == 22 {
        ("allow", "")
    } else if idx == 23 {
        ("authorization", "")
    } else if idx == 24 {
        ("cache-control", "")
    } else if idx == 25 {
        ("content-disposition", "")
    } else if idx == 26 {
        ("content-encoding", "")
    } else if idx == 27 {
        ("content-language", "")
    } else if idx == 28 {
        ("content-length", "")
    } else if idx == 29 {
        ("content-location", "")
    } else if idx == 30 {
        ("content-range", "")
    } else if idx == 31 {
        ("content-type", "")
    } else if idx == 32 {
        ("cookie", "")
    } else if idx == 33 {
        ("date", "")
    } else if idx == 34 {
        ("etag", "")
    } else if idx == 35 {
        ("expect", "")
    } else if idx == 36 {
        ("expires", "")
    } else if idx == 37 {
        ("from", "")
    } else if idx == 38 {
        ("host", "")
    } else if idx == 39 {
        ("if-match", "")
    } else if idx == 40 {
        ("if-modified-since", "")
    } else if idx == 41 {
        ("if-none-match", "")
    } else if idx == 42 {
        ("if-range", "")
    } else if idx == 43 {
        ("if-unmodified-since", "")
    } else if idx == 44 {
        ("last-modified", "")
    } else if idx == 45 {
        ("link", "")
    } else if idx == 46 {
        ("location", "")
    } else if idx == 47 {
        ("max-forwards", "")
    } else if idx == 48 {
        ("proxy-authenticate", "")
    } else if idx == 49 {
        ("proxy-authorization", "")
    } else if idx == 50 {
        ("range", "")
    } else if idx == 51 {
        ("referer", "")
    } else if idx == 52 {
        ("refresh", "")
    } else if idx == 53 {
        ("retry-after", "")
    } else if idx == 54 {
        ("server", "")
    } else if idx == 55 {
        ("set-cookie", "")
    } else if idx == 56 {
        ("strict-transport-security", "")
    } else if idx == 57 {
        ("transfer-encoding", "")
    } else if idx == 58 {
        ("user-agent", "")
    } else if idx == 59 {
        ("vary", "")
    } else if idx == 60 {
        ("via", "")
    } else {
        ("www-authenticate", "")
    }
}

} // verus!

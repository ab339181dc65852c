//! Control plane: what a request asks for, and how it is answered.
//!
//! Every request is forwarded to the thread that owns the connection state and
//! answered from there, so the answer always reflects a consistent point in the
//! packet stream.
use vstd::prelude::*;
use vstd::string::*;

use crate::ports::{position, trim, trimmed};
use crate::text::{chars_of, text_from};

verus! {

/// The method of a request.
#[derive(Debug, Clone, Copy, PartialEq, Eq, Structural)]
pub enum Verb {
    Get,
    Post,
    Delete,
    Other,
}

/// What a request asks for.
#[derive(Debug)]
pub enum Ask {
    Health,
    Connections,
    Start,
    /// Stop the capture that is running.
    StopAny,
    /// Stop the capture with this id.
    Stop(String),
    Index,
    Nothing,
}

/// The same as a mathematical value.
#[verifier::ext_equal]
pub enum AskView {
    Health,
    Connections,
    Start,
    StopAny,
    Stop(Seq<char>),
    Index,
    Nothing,
}

impl View for Ask {
    type V = AskView;

    open spec fn view(&self) -> AskView {
        match self {
            Ask::Health => AskView::Health,
            Ask::Connections => AskView::Connections,
            Ask::Start => AskView::Start,
            Ask::StopAny => AskView::StopAny,
            Ask::Stop(id) => AskView::Stop(id@),
            Ask::Index => AskView::Index,
            Ask::Nothing => AskView::Nothing,
        }
    }
}

/// The path of a URL: what stands before the query.
pub open spec fn path_of(url: Seq<char>) -> Seq<char> {
    url.take(position(url, '?', 0))
}

/// Whether `s` starts with `p`.
pub open spec fn starts_with(s: Seq<char>, p: Seq<char>) -> bool {
    s.len() >= p.len() && s.take(p.len() as int) == p
}

/// What is left of `s` when `p` is taken off its front as often as it stands
/// there.
pub open spec fn stripped(s: Seq<char>, p: Seq<char>) -> Seq<char>
    decreases s.len(),
{
    if p.len() > 0 && starts_with(s, p) {
        stripped(s.skip(p.len() as int), p)
    } else {
        s
    }
}

/// What a request asks for.
pub open spec fn asked(verb: Verb, url: Seq<char>) -> AskView {
    let path = path_of(url);
    match verb {
        Verb::Get => if path == "/health"@ {
            AskView::Health
        } else if path == "/connections"@ {
            AskView::Connections
        } else if path == "/"@ {
            AskView::Index
        } else {
            AskView::Nothing
        },
        Verb::Post => if path == "/captures"@ {
            AskView::Start
        } else {
            AskView::Nothing
        },
        Verb::Delete => if path == "/captures"@ {
            AskView::StopAny
        } else if starts_with(path, "/captures/"@) {
            AskView::Stop(stripped(path, "/captures/"@))
        } else {
            AskView::Nothing
        },
        Verb::Other => AskView::Nothing,
    }
}

fn begins(s: &[char], p: &[char]) -> (r: bool)
    ensures
        r == starts_with(s@, p@),
{
    if s.len() < p.len() {
        return false;
    }
    let mut i: usize = 0;
    while i < p.len()
        invariant
            i <= p@.len() <= s@.len(),
            forall|j: int| 0 <= j < i ==> s@[j] == p@[j],
        decreases p@.len() - i,
    {
        if s[i] != p[i] {
            assert(s@.take(p@.len() as int)[i as int] == s@[i as int]);
            return false;
        }
        i += 1;
    }
    assert(s@.take(p@.len() as int) =~= p@);
    true
}

fn equals(s: &[char], p: &str) -> (r: bool)
    ensures
        r == (s@ == p@),
{
    let q: Vec<char> = chars_of(p);
    let same: bool = s.len() == q.len() && begins(s, &q);
    proof {
        assert(s@.take(s@.len() as int) =~= s@);
    }
    same
}

fn strip<'a>(s: &'a [char], p: &[char]) -> (r: &'a [char])
    requires
        p@.len() > 0,
    ensures
        r@ == stripped(s@, p@),
{
    let mut rest = s;
    while begins(rest, p)
        invariant
            p@.len() > 0,
            stripped(rest@, p@) == stripped(s@, p@),
        decreases rest@.len(),
    {
        rest = vstd::slice::slice_subrange(rest, p.len(), rest.len());
    }
    rest
}

/// What a request asks for.
pub fn ask_of(verb: Verb, url: &str) -> (r: Ask)
    ensures
        r@ == asked(verb, url@),
{
    let all: Vec<char> = chars_of(url);
    let n: usize = crate::ports::find_char(&all, '?');
    let path = vstd::slice::slice_subrange(all.as_slice(), 0, n);
    assert(path@ =~= path_of(url@));
    match verb {
        Verb::Get => {
            if equals(path, "/health") {
                Ask::Health
            } else if equals(path, "/connections") {
                Ask::Connections
            } else if equals(path, "/") {
                Ask::Index
            } else {
                Ask::Nothing
            }
        },
        Verb::Post => {
            if equals(path, "/captures") {
                Ask::Start
            } else {
                Ask::Nothing
            }
        },
        Verb::Delete => {
            let prefix: Vec<char> = chars_of("/captures/");
            if equals(path, "/captures") {
                Ask::StopAny
            } else if begins(path, &prefix) {
                proof {
                    reveal_strlit("/captures/");
                }
                Ask::Stop(text_from(strip(path, &prefix)))
            } else {
                Ask::Nothing
            }
        },
        Verb::Other => Ask::Nothing,
    }
}

/// Whether a request body says nothing, so that every default applies.
pub fn is_blank(body: &str) -> (r: bool)
    ensures
        r == (trimmed(body@).len() == 0),
{
    let all: Vec<char> = chars_of(body);
    trim(&all).len() == 0
}

/// How a request fares.
#[derive(Debug, Clone, Copy, PartialEq, Eq, Structural)]
pub enum Outcome {
    Done,
    /// The body could not be read or is not what it should be.
    BadBody,
    /// There is nothing of that kind here.
    NotFound,
    /// What was asked for is refused.
    Refused,
    /// There is nobody left to ask.
    Gone,
    /// There was no answer in time.
    Late,
}

/// The status code of an outcome.
pub open spec fn code_of(o: Outcome) -> u16 {
    match o {
        Outcome::Done => 200,
        Outcome::BadBody => 400,
        Outcome::NotFound => 404,
        Outcome::Refused => 409,
        Outcome::Gone => 503,
        Outcome::Late => 504,
    }
}

/// The status code of an outcome.
pub fn status_code(o: Outcome) -> (r: u16)
    ensures
        r == code_of(o),
{
    match o {
        Outcome::Done => 200,
        Outcome::BadBody => 400,
        Outcome::NotFound => 404,
        Outcome::Refused => 409,
        Outcome::Gone => 503,
        Outcome::Late => 504,
    }
}

/// A query does not change what is asked for.
pub proof fn law_query_is_ignored(verb: Verb, path: Seq<char>, query: Seq<char>)
    requires
        !path.contains('?'),
    ensures
        asked(verb, path + seq!['?'] + query) == asked(verb, path),
        path_of(path + seq!['?'] + query) == path,
{
    let url = path + seq!['?'] + query;
    assert(url.take(path.len() as int) =~= path);
    lemma_first_mark(path, url, 0);
    lemma_no_mark(path, 0);
    assert(path.take(path.len() as int) =~= path);
}

proof fn lemma_first_mark(path: Seq<char>, url: Seq<char>, i: int)
    requires
        0 <= i <= path.len() < url.len(),
        url.take(path.len() as int) == path,
        url[path.len() as int] == '?',
        !path.contains('?'),
    ensures
        position(url, '?', i) == path.len(),
    decreases path.len() - i,
{
    if i < path.len() {
        assert(url.take(path.len() as int)[i] == url[i]);
        assert(path.contains(path[i]));
        lemma_first_mark(path, url, i + 1);
    }
}

proof fn lemma_no_mark(path: Seq<char>, i: int)
    requires
        0 <= i <= path.len(),
        !path.contains('?'),
    ensures
        position(path, '?', i) == path.len(),
    decreases path.len() - i,
{
    if i < path.len() {
        assert(path.contains(path[i]));
        lemma_no_mark(path, i + 1);
    }
}

/// A capture is started where captures are listed, and stopped there under its own
/// id, or without one whichever it is. Only looking is done with the method that
/// looks.
pub proof fn law_captures_are_stopped_by_id(id: Seq<char>)
    requires
        !id.contains('?'),
        !starts_with(id, "/captures/"@),
    ensures
        asked(Verb::Post, "/captures"@) == AskView::Start,
        asked(Verb::Delete, "/captures"@) == AskView::StopAny,
        asked(Verb::Delete, "/captures/"@ + id) == AskView::Stop(id),
        asked(Verb::Post, "/captures/"@ + id) == AskView::Nothing,
        asked(Verb::Get, "/captures/"@ + id) == AskView::Nothing,
        asked(Verb::Get, "/captures"@) == AskView::Nothing,
        asked(Verb::Get, "/health"@) == AskView::Health,
        asked(Verb::Get, "/connections"@) == AskView::Connections,
        asked(Verb::Get, "/"@) == AskView::Index,
{
    let stem = "/captures/"@;
    let path = stem + id;
    lemma_paths();
    assert(!path.contains('?')) by {
        assert forall|i: int| 0 <= i < path.len() implies path[i] != '?' by {
            if i < stem.len() {
                assert(stem.contains(stem[i]));
            } else {
                assert(id.contains(id[i - stem.len()]));
            }
        }
    }
    lemma_no_mark(path, 0);
    assert(path.take(path.len() as int) =~= path);
    assert(path.take(stem.len() as int) =~= stem);
    assert(path.skip(stem.len() as int) =~= id);
    assert(stripped(path, stem) == stripped(id, stem));
    assert("/connections"@[2] != path[2]);
    assert("/health"@[1] != path[1]);
    let all = "/captures"@;
    lemma_no_mark(all, 0);
    assert(all.take(all.len() as int) =~= all);
    assert(all[1] != "/health"@[1] && all[2] != "/connections"@[2]);
    let health = "/health"@;
    lemma_no_mark(health, 0);
    assert(health.take(health.len() as int) =~= health);
    let conns = "/connections"@;
    lemma_no_mark(conns, 0);
    assert(conns.take(conns.len() as int) =~= conns);
    assert(conns[1] != health[1]);
    let root = "/"@;
    lemma_no_mark(root, 0);
    assert(root.take(root.len() as int) =~= root);
}

proof fn lemma_paths()
    ensures
        "/captures/"@.len() == 10,
        "/captures"@.len() == 9,
        "/health"@.len() == 7,
        "/connections"@.len() == 12,
        "/"@.len() == 1,
        "/captures/"@[1] == 'c' && "/captures/"@[2] == 'a',
        "/captures"@[1] == 'c' && "/captures"@[2] == 'a',
        "/health"@[1] == 'h',
        "/connections"@[1] == 'c' && "/connections"@[2] == 'o',
        !"/captures/"@.contains('?'),
        !"/captures"@.contains('?'),
        !"/health"@.contains('?'),
        !"/connections"@.contains('?'),
        !"/"@.contains('?'),
{
    reveal_strlit("/captures/");
    reveal_strlit("/captures");
    reveal_strlit("/health");
    reveal_strlit("/connections");
    reveal_strlit("/");
}

/// Every outcome has a code of its own: one of success, one of the asker's fault, or
/// one of ours.
pub proof fn law_codes_tell_outcomes_apart(a: Outcome, b: Outcome)
    ensures
        code_of(a) == code_of(b) ==> a == b,
        code_of(a) / 100 == 2 <==> a == Outcome::Done,
        code_of(a) / 100 == 4 <==> a == Outcome::BadBody || a == Outcome::NotFound || a
            == Outcome::Refused,
        code_of(a) / 100 == 5 <==> a == Outcome::Gone || a == Outcome::Late,
        code_of(Outcome::NotFound) == 404,
        code_of(Outcome::Refused) == 409,
        code_of(Outcome::Late) == 504,
{
}

} // verus!

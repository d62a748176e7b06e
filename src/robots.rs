use vstd::prelude::*;
use vstd::string::StringSliceAdditionalSpecFns;

verus! {

/// How long a robots.txt verdict stays cached, in seconds (thirty days).
pub const ROBOTS_CACHE_TTL_SECS: u64 = 60 * 60 * 24 * 30;

/// Whether robots.txt text `robots_txt` lets `user_agent` fetch `url`, by the matcher's rules.
pub uninterp spec fn robots_verdict(robots_txt: Seq<char>, user_agent: Seq<char>, url: Seq<char>) -> bool;

/// Longest line, in bytes, that the matcher splits safely when it holds a non-ASCII character.
/// Past this length its line splitter skips characters and counts each as one byte.
pub const WIDE_LINE_MAX_BYTES: usize = 16662;

/// Whether byte `b` ends a robots.txt line.
pub open spec fn is_line_break(b: u8) -> bool {
    b == 10 || b == 13
}

/// Whether `b[i..j)` holds no line break.
pub open spec fn unbroken(b: Seq<u8>, i: int, j: int) -> bool {
    forall|m: int| i <= m < j ==> !is_line_break(#[trigger] b[m])
}

/// Whether every line of the UTF-8 text `b` that holds a non-ASCII byte has at most
/// `WIDE_LINE_MAX_BYTES` bytes.
pub open spec fn lines_fit(b: Seq<u8>) -> bool {
    forall|i: int, k: int, j: int|
        #![trigger unbroken(b, i, j), b[k]]
        0 <= i <= k < j <= b.len() && unbroken(b, i, j) && b[k] >= 0x80 ==> j - i
            <= WIDE_LINE_MAX_BYTES
}

/// Whether the matcher can read `robots_txt` safely: every line that holds a non-ASCII
/// character is at most `WIDE_LINE_MAX_BYTES` bytes long.
pub fn robots_txt_fits(robots_txt: &str) -> (r: bool)
    ensures
        r == lines_fit(robots_txt.spec_bytes()),
{
    let b = robots_txt.as_bytes_vec();
    let ghost t = b@;
    let mut n: usize = 0;
    let mut run: usize = 0;
    let mut wide = false;
    let ghost mut wpos: int = 0;
    while n < b.len()
        invariant
            t == b@,
            t == robots_txt.spec_bytes(),
            n <= b@.len(),
            run <= n,
            unbroken(t, n - run, n as int),
            n - run == 0 || is_line_break(t[n - run - 1]),
            wide ==> n - run <= wpos < n && t[wpos] >= 0x80,
            !wide ==> forall|m: int| n - run <= m < n ==> #[trigger] t[m] < 0x80,
            wide ==> run <= WIDE_LINE_MAX_BYTES,
            forall|i: int, k: int, j: int|
                #![trigger unbroken(t, i, j), t[k]]
                0 <= i <= k < j <= n && unbroken(t, i, j) && t[k] >= 0x80 ==> j - i
                    <= WIDE_LINE_MAX_BYTES,
        decreases b@.len() - n,
    {
        let c = b[n];
        if c == 10 || c == 13 {
            proof {
                assert forall|i: int, k: int, j: int|
                    #![trigger unbroken(t, i, j), t[k]]
                    0 <= i <= k < j <= n + 1 && unbroken(t, i, j) && t[k] >= 0x80 implies j - i
                        <= WIDE_LINE_MAX_BYTES by {
                    if j == n + 1 {
                        assert(!is_line_break(t[n as int]));
                    }
                }
            }
            run = 0;
            wide = false;
        } else {
            if c >= 0x80 {
                wide = true;
                proof {
                    wpos = n as int;
                }
            }
            if wide && run >= WIDE_LINE_MAX_BYTES {
                proof {
                    let i = n - run;
                    assert(unbroken(t, i, n + 1));
                    assert(t[wpos] >= 0x80);
                    assert(0 <= i <= wpos < n + 1 <= t.len());
                    assert((n + 1) - i > WIDE_LINE_MAX_BYTES);
                    assert(!lines_fit(t));
                }
                return false;
            }
            proof {
                assert forall|i: int, k: int, j: int|
                    #![trigger unbroken(t, i, j), t[k]]
                    0 <= i <= k < j <= n + 1 && unbroken(t, i, j) && t[k] >= 0x80 implies j - i
                        <= WIDE_LINE_MAX_BYTES by {
                    if j == n + 1 {
                        if i < n - run {
                            assert(!is_line_break(t[n - run - 1]));
                        }
                        if !wide {
                            assert(t[k] < 0x80);
                        }
                    } else {
                        assert(unbroken(t, i, j));
                    }
                }
            }
            run = run + 1;
        }
        n = n + 1;
    }
    true
}

/// Relies on robotstxt's `DefaultMatcher::one_agent_allowed_by_robots`: a verdict computed from
/// the three texts alone, on a fresh matcher. Its line splitter can cut inside a character on a
/// line past `WIDE_LINE_MAX_BYTES` bytes that holds a non-ASCII character, hence the condition.
#[verifier::external_body]
fn matcher_allows(robots_txt: &str, user_agent: &str, url: &str) -> (r: bool)
    requires
        lines_fit(robots_txt.spec_bytes()),
    ensures
        r == robots_verdict(robots_txt@, user_agent@, url@),
{
    let mut matcher = robotstxt::DefaultMatcher::default();
    matcher.one_agent_allowed_by_robots(robots_txt, user_agent, url)
}

/// The address of a site's robots.txt: `<scheme>://<domain>/robots.txt`.
pub open spec fn robots_txt_url_of(scheme: Seq<char>, domain: Seq<char>) -> Seq<char> {
    scheme + seq![':', '/', '/'] + domain + seq!['/', 'r', 'o', 'b', 'o', 't', 's', '.', 't', 'x', 't']
}

/// The address of the robots.txt that governs `domain` under `scheme`.
pub fn robots_txt_url(scheme: &str, domain: &str) -> (r: String)
    ensures
        r@ == robots_txt_url_of(scheme@, domain@),
{
    let mut r = String::from_str(scheme);
    r.append("://");
    r.append(domain);
    r.append("/robots.txt");
    proof {
        reveal_strlit("://");
        reveal_strlit("/robots.txt");
    }
    assert(r@ =~= robots_txt_url_of(scheme@, domain@));
    r
}

/// The store key under which `d`'s robots.txt verdict is cached.
pub open spec fn robots_key_of(d: Seq<char>) -> Seq<char> {
    seq!['r', 'o', 'b', 'o', 't', 's', ':'] + d
}

/// The store key under which `domain`'s robots.txt verdict is cached.
pub fn robots_key(domain: &str) -> (r: String)
    ensures
        r@ == robots_key_of(domain@),
{
    let mut k = String::from_str("robots:");
    proof {
        reveal_strlit("robots:");
    }
    k.append(domain);
    assert(k@ =~= robots_key_of(domain@));
    k
}

/// The cached verdict, if one is cached: a stored 1 allows, any other stored value forbids.
pub fn cached_verdict(cached: Option<u8>) -> (r: Option<bool>)
    ensures
        r == match cached {
            Some(v) => Some(v == 1),
            None => None,
        },
{
    match cached {
        Some(v) => Some(v == 1),
        None => None,
    }
}

/// Encodes a verdict for the cache.
pub fn verdict_code(allowed: bool) -> (r: u8)
    ensures
        r == (if allowed { 1u8 } else { 0u8 }),
        (r == 1) == allowed,
{
    if allowed { 1 } else { 0 }
}

/// Reads a freshly fetched robots.txt: the verdict for `url` and the value to cache for it.
pub fn fresh_verdict(robots_txt: &str, user_agent: &str, url: &str) -> (r: (bool, u8))
    requires
        lines_fit(robots_txt.spec_bytes()),
    ensures
        r.0 == robots_verdict(robots_txt@, user_agent@, url@),
        r.1 == (if r.0 { 1u8 } else { 0u8 }),
{
    let allowed = matcher_allows(robots_txt, user_agent, url);
    (allowed, verdict_code(allowed))
}

} // verus!

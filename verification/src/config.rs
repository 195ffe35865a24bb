//! Connection configuration, parsed from a single URL string: the
//! server URL itself, and the credential, caller identity and
//! traceback policy carried as query parameters.
use vstd::prelude::*;

use vstd::string::StrSliceExecFns;

use crate::protocol::fresh_request_id;

verus! {

/// What a connection is opened with: the server URL, the credential,
/// the caller identity and the traceback policy.
#[derive(Debug, Clone, PartialEq)]
pub struct ConnectionConfig {
    /// The URL to open, query string included.
    pub server_url: String,
    /// The `apikey` parameter; empty where absent.
    pub api_key: String,
    /// The `interpreter_id` parameter; a fresh 36-character identifier
    /// where absent.
    pub interpreter_id: String,
    /// The `strip_tracebacks` parameter read as `"1"`; true where
    /// absent.
    pub strip_tracebacks: bool,
}

/// The first position of the character at or after `i` and before
/// `end`, or `end` where it does not occur.
pub open spec fn find_before(u: Seq<char>, c: char, i: int, end: int) -> int
    decreases end - i,
{
    if i >= end {
        end
    } else if u[i] == c {
        i
    } else {
        find_before(u, c, i + 1, end)
    }
}

/// The find stays between its bounds, lands on the character, and
/// skips nothing.
pub proof fn lemma_find_before(u: Seq<char>, c: char, i: int, end: int)
    requires
        0 <= i <= end <= u.len(),
    ensures
        i <= find_before(u, c, i, end) <= end,
        find_before(u, c, i, end) < end ==> u[find_before(u, c, i, end)] == c,
        forall|j: int| i <= j < find_before(u, c, i, end) ==> u[j] != c,
    decreases end - i,
{
    if i < end && u[i] != c {
        lemma_find_before(u, c, i + 1, end);
    }
}

/// The settings read from query pairs: the credential, the optional
/// caller identity, and the traceback policy.
pub open spec fn apply_pair(
    u: Seq<char>,
    a: int,
    b: int,
    acc: (Seq<char>, Option<Seq<char>>, bool),
) -> (Seq<char>, Option<Seq<char>>, bool) {
    let eq = find_before(u, '=', a, b);
    if eq >= b {
        acc
    } else {
        let vend = find_before(u, '=', eq + 1, b);
        let key = u.subrange(a, eq);
        let value = u.subrange(eq + 1, vend);
        if key == "apikey"@ {
            (value, acc.1, acc.2)
        } else if key == "interpreter_id"@ {
            (acc.0, Some(value), acc.2)
        } else if key == "strip_tracebacks"@ {
            (acc.0, acc.1, value == "1"@)
        } else {
            acc
        }
    }
}

/// The settings after reading every remaining pair, separated by
/// ampersands, from position `i` on.
pub open spec fn parse_pairs(
    u: Seq<char>,
    i: int,
    acc: (Seq<char>, Option<Seq<char>>, bool),
) -> (Seq<char>, Option<Seq<char>>, bool)
    decreases u.len() - i,
{
    if i >= u.len() {
        acc
    } else {
        let amp = find_before(u, '&', i, u.len() as int);
        let nxt = if amp + 1 > u.len() {
            u.len() as int
        } else if amp < i {
            i + 1
        } else {
            amp + 1
        };
        parse_pairs(u, nxt, apply_pair(u, i, amp, acc))
    }
}

/// The settings carried by the URL: everything after the first
/// question mark, read as ampersand-separated `key=value` pairs; the
/// defaults where there is no query.
pub open spec fn config_of(u: Seq<char>) -> (Seq<char>, Option<Seq<char>>, bool) {
    let q = find_before(u, '?', 0, u.len() as int);
    if q >= u.len() {
        (Seq::empty(), None, true)
    } else {
        parse_pairs(u, q + 1, (Seq::empty(), None, true))
    }
}

/// The first position of the character at or after `from` and before
/// `end`.
#[verifier::loop_isolation(false)]
fn find_char(s: &str, c: char, from: usize, end: usize) -> (r: usize)
    requires
        from <= end <= s@.len(),
    ensures
        r == find_before(s@, c, from as int, end as int),
        from <= r <= end,
{
    let mut j = from;
    while j < end
        invariant
            from <= j <= end,
            find_before(s@, c, from as int, end as int) == find_before(
                s@,
                c,
                j as int,
                end as int,
            ),
        decreases end - j,
    {
        if s.get_char(j) == c {
            return j;
        }
        j += 1;
    }
    end
}

/// Reads the connection settings out of the URL: the URL itself is the
/// server URL; `apikey`, `interpreter_id` and `strip_tracebacks` come
/// from its query string, last occurrence winning; a missing
/// credential is empty, a missing traceback policy is on, and a
/// missing caller identity is drawn fresh.
#[verifier::loop_isolation(false)]
pub fn parse_connection_config(api_url: &str) -> (r: ConnectionConfig)
    ensures
        r.server_url@ == api_url@,
        r.api_key@ == config_of(api_url@).0,
        (match config_of(api_url@).1 {
            Some(idv) => r.interpreter_id@ == idv,
            None => r.interpreter_id@.len() == 36,
        }),
        r.strip_tracebacks == config_of(api_url@).2,
{
    let n = api_url.unicode_len();
    let mut api_key: String = String::new();
    let mut interpreter_id: Option<String> = None;
    let mut strip_tracebacks: bool = true;
    let qpos = find_char(api_url, '?', 0, n);
    proof {
        lemma_find_before(api_url@, '?', 0, n as int);
    }
    if qpos < n {
        let mut i = qpos + 1;
        while i <= n
            invariant
                qpos + 1 <= i <= n + 1,
                config_of(api_url@) == parse_pairs(
                    api_url@,
                    i as int,
                    (
                        api_key@,
                        (match interpreter_id {
                            Some(idv) => Some(idv@),
                            None => None,
                        }),
                        strip_tracebacks,
                    ),
                ),
            decreases n + 1 - i,
        {
            if i == n {
                proof {
                    assert(parse_pairs(
                        api_url@,
                        n as int,
                        (
                            api_key@,
                            (match interpreter_id {
                                Some(idv) => Some(idv@),
                                None => None,
                            }),
                            strip_tracebacks,
                        ),
                    ) == config_of(api_url@));
                }
                break ;
            }
            let amp = find_char(api_url, '&', i, n);
            proof {
                lemma_find_before(api_url@, '&', i as int, n as int);
            }
            let eq = find_char(api_url, '=', i, amp);
            proof {
                lemma_find_before(api_url@, '=', i as int, amp as int);
            }
            if eq < amp {
                let vend = find_char(api_url, '=', eq + 1, amp);
                proof {
                    lemma_find_before(api_url@, '=', eq as int + 1, amp as int);
                }
                let key: &str = api_url.substring_char(i, eq);
                let value: String = api_url.substring_char(eq + 1, vend).to_owned();
                let key_owned: String = key.to_owned();
                if key_owned == "apikey".to_owned() {
                    api_key = value;
                } else if key_owned == "interpreter_id".to_owned() {
                    interpreter_id = Some(value);
                } else if key_owned == "strip_tracebacks".to_owned() {
                    strip_tracebacks = value == "1".to_owned();
                }
            }
            i = if amp >= n {
                n
            } else {
                amp + 1
            };
        }
    }
    let interpreter_id_text: String = match interpreter_id {
        Some(idv) => idv,
        None => fresh_request_id(),
    };
    ConnectionConfig {
        server_url: api_url.to_owned(),
        api_key,
        interpreter_id: interpreter_id_text,
        strip_tracebacks,
    }
}

} // verus!

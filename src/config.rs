//! Parsing of the peer list `node_id@endpoint,node_id@endpoint,...`.

use vstd::prelude::*;
use vstd::string::{StrSliceExecFns, StringExecFns};

use crate::node::{NodeId, PeerConfig};

verus! {

/// Default seconds between two pulls from a peer.
pub const DEFAULT_PULL_INTERVAL_SECS: u64 = 5;

/// Problems with the configuration; each names the variable concerned.
#[derive(Clone, Copy, Debug, PartialEq, Eq)]
pub enum ConfigError {
    /// A required variable is not set.
    Missing(&'static str),
    /// A variable has a value that cannot be used; with the reason.
    Invalid(&'static str, &'static str),
}

/// What `str::trim` leaves of `s`.
pub uninterp spec fn trimmed(s: Seq<char>) -> Seq<char>;

/// Relies on std's `str::trim`: `s` without leading and trailing white
/// space; the result depends on the text alone.
#[verifier::external_body]
fn trim_text(s: &str) -> (r: &str)
    ensures
        r@ == trimmed(s@),
{
    s.trim()
}

/// The value of a decimal digit.
pub open spec fn digit_value(c: char) -> int {
    if c == '1' {
        1
    } else if c == '2' {
        2
    } else if c == '3' {
        3
    } else if c == '4' {
        4
    } else if c == '5' {
        5
    } else if c == '6' {
        6
    } else if c == '7' {
        7
    } else if c == '8' {
        8
    } else if c == '9' {
        9
    } else {
        0
    }
}

/// The number that the decimal digits `d` write.
pub open spec fn digits_value(d: Seq<char>) -> int
    decreases d.len(),
{
    if d.len() == 0 {
        0
    } else {
        digits_value(d.drop_last()) * 10 + digit_value(d.last())
    }
}

/// An ASCII decimal digit.
pub open spec fn is_digit(c: char) -> bool {
    '0' <= c && c <= '9'
}

/// Every character of `d` is a digit.
pub open spec fn all_digits(d: Seq<char>) -> bool {
    forall|i: int| 0 <= i < d.len() ==> is_digit(#[trigger] d[i])
}

/// `s` without one leading `+`.
pub open spec fn unsigned_part(s: Seq<char>) -> Seq<char> {
    if s.len() > 0 && s[0] == '+' {
        s.drop_first()
    } else {
        s
    }
}

/// What `u64::from_str` reads from `s`: an optional `+` followed by one or
/// more ASCII digits whose value fits in a `u64`.
pub open spec fn u64_text_value(s: Seq<char>) -> Option<u64> {
    let d = unsigned_part(s);
    if d.len() > 0 && all_digits(d) && digits_value(d) <= u64::MAX {
        Some(digits_value(d) as u64)
    } else {
        None
    }
}

/// The value of the decimal digit `c`.
fn digit_of(c: char) -> (r: u64)
    ensures
        r == digit_value(c),
{
    if c == '1' {
        1
    } else if c == '2' {
        2
    } else if c == '3' {
        3
    } else if c == '4' {
        4
    } else if c == '5' {
        5
    } else if c == '6' {
        6
    } else if c == '7' {
        7
    } else if c == '8' {
        8
    } else if c == '9' {
        9
    } else {
        0
    }
}

/// Digits only grow in value as more digits follow.
proof fn lemma_digits_value_grows(d: Seq<char>, k: int)
    requires
        0 <= k <= d.len(),
    ensures
        digits_value(d.subrange(0, k)) <= digits_value(d),
        0 <= digits_value(d),
    decreases d.len(),
{
    if d.len() > 0 {
        lemma_digits_value_nonneg(d.drop_last());
        if k < d.len() {
            lemma_digits_value_grows(d.drop_last(), k);
            assert(d.drop_last().subrange(0, k) == d.subrange(0, k));
            assert(digit_value(d.last()) >= 0);
        } else {
            assert(d.subrange(0, k) == d);
        }
    }
}

proof fn lemma_digits_value_nonneg(d: Seq<char>)
    ensures
        0 <= digits_value(d),
    decreases d.len(),
{
    if d.len() > 0 {
        lemma_digits_value_nonneg(d.drop_last());
    }
}

/// What `u64::from_str` reads: an optional `+` and decimal digits whose
/// value fits in a `u64`.
fn parse_u64(s: &str) -> (r: Option<u64>)
    ensures
        r == u64_text_value(s@),
{
    let n = s.unicode_len();
    let mut start: usize = 0;
    if n > 0 && s.get_char(0) == '+' {
        start = 1;
    }
    let ghost d = unsigned_part(s@);
    assert(d == s@.subrange(start as int, n as int));
    if start >= n {
        return None;
    }
    let mut v: u64 = 0;
    let mut i: usize = start;
    while i < n
        invariant
            n == s@.len(),
            start < n,
            d == unsigned_part(s@),
            d == s@.subrange(start as int, n as int),
            start <= i <= n,
            v == digits_value(d.subrange(0, i - start)),
            forall|j: int| 0 <= j < i - start ==> is_digit(#[trigger] d[j]),
        decreases n - i,
    {
        let c = s.get_char(i);
        assert(c == d[i - start]);
        if !('0' <= c && c <= '9') {
            proof {
                let j = i - start;
                assert(!is_digit(d[j]));
                assert(!all_digits(d));
            }
            return None;
        }
        let digit = digit_of(c);
        let ghost prefix = d.subrange(0, i - start + 1);
        assert(prefix.drop_last() == d.subrange(0, i - start));
        assert(prefix.last() == c);
        let wide = (v as u128) * 10 + (digit as u128);
        assert(wide == digits_value(prefix));
        if wide > u64::MAX as u128 {
            proof {
                if all_digits(d) {
                    lemma_digits_value_grows(d, i - start + 1);
                    assert(digits_value(d) > u64::MAX);
                }
                assert(u64_text_value(s@) is None);
            }
            return None;
        }
        v = wide as u64;
        i = i + 1;
    }
    assert(d.subrange(0, n - start) == d);
    assert(all_digits(d));
    Some(v)
}

/// First index at or after `i` holding `c`, or the length.
pub open spec fn find_from(s: Seq<char>, c: char, i: int) -> int
    decreases s.len() - i,
{
    if i >= s.len() {
        s.len() as int
    } else if s[i] == c {
        i
    } else {
        find_from(s, c, i + 1)
    }
}

/// The view of a configured peer.
pub ghost struct PeerModel {
    pub node_id: NodeId,
    pub endpoint: Seq<char>,
    pub pull_interval_secs: u64,
}

pub open spec fn peer_views(v: Seq<PeerConfig>) -> Seq<PeerModel> {
    v.map_values(|p: PeerConfig| PeerModel { node_id: p.node_id, endpoint: p.endpoint@, pull_interval_secs: p.pull_interval_secs })
}

/// Variable that holds the peer list.
pub const PEERS_VAR: &'static str = "FYLGE_PEERS";

/// Reason given for an entry without `@`.
pub const NO_AT_SIGN: &'static str = "expected format: node_id@endpoint (e.g. 2@http://localhost:3002)";

/// Reason given for an entry whose node id is no `u64`.
pub const BAD_NODE_ID: &'static str = "node_id must be a valid u64 (format: node_id@endpoint)";

/// What one trimmed, non-empty entry describes.
pub open spec fn entry_result(f: Seq<char>) -> Result<PeerModel, ConfigError> {
    let a = find_from(f, '@', 0);
    if a >= f.len() {
        Err(ConfigError::Invalid(PEERS_VAR, NO_AT_SIGN))
    } else {
        match u64_text_value(f.subrange(0, a)) {
            None => Err(ConfigError::Invalid(PEERS_VAR, BAD_NODE_ID)),
            Some(n) => Ok(
                PeerModel {
                    node_id: NodeId(n),
                    endpoint: f.subrange(a + 1, f.len() as int),
                    pull_interval_secs: DEFAULT_PULL_INTERVAL_SECS,
                },
            ),
        }
    }
}

/// The peers of the comma-separated entries of `s` from index `i` on;
/// blank entries are skipped and the first bad entry decides the error.
pub open spec fn peers_from(s: Seq<char>, i: int) -> Result<Seq<PeerModel>, ConfigError>
    decreases s.len() - i via peers_from_decreases
{
    if i < 0 || i > s.len() {
        Ok(Seq::empty())
    } else {
        let e = find_from(s, ',', i);
        let f = trimmed(s.subrange(i, e));
        let rest = if e < s.len() {
            peers_from(s, e + 1)
        } else {
            Ok(Seq::empty())
        };
        if f.len() == 0 {
            rest
        } else {
            match entry_result(f) {
                Err(err) => Err(err),
                Ok(p) => match rest {
                    Err(err) => Err(err),
                    Ok(ps) => Ok(seq![p] + ps),
                },
            }
        }
    }
}

#[via_fn]
proof fn peers_from_decreases(s: Seq<char>, i: int) {
    if 0 <= i <= s.len() {
        lemma_find_from_bounds(s, ',', i);
    }
}

/// `done` followed by the outcome `r`.
pub open spec fn after(done: Seq<PeerModel>, r: Result<Seq<PeerModel>, ConfigError>) -> Result<Seq<PeerModel>, ConfigError> {
    match r {
        Ok(ps) => Ok(done + ps),
        Err(e) => Err(e),
    }
}

proof fn lemma_find_from_bounds(s: Seq<char>, c: char, i: int)
    requires
        0 <= i <= s.len(),
    ensures
        i <= find_from(s, c, i) <= s.len(),
        find_from(s, c, i) < s.len() ==> s[find_from(s, c, i)] == c,
        forall|j: int| i <= j < find_from(s, c, i) ==> s[j] != c,
    decreases s.len() - i,
{
    if i < s.len() && s[i] != c {
        lemma_find_from_bounds(s, c, i + 1);
    }
}

/// Index of the first `c` in `s` at or after `i`, or its length.
fn find_char(s: &str, c: char, i: usize) -> (r: usize)
    requires
        i <= s@.len(),
    ensures
        r == find_from(s@, c, i as int),
{
    let n = s.unicode_len();
    let mut j = i;
    proof {
        lemma_find_from_bounds(s@, c, i as int);
    }
    while j < n
        invariant
            n == s@.len(),
            i <= j <= n,
            find_from(s@, c, j as int) == find_from(s@, c, i as int),
        decreases n - j,
    {
        if s.get_char(j) == c {
            return j;
        }
        j = j + 1;
    }
    j
}

/// One trimmed, non-empty entry `node_id@endpoint`.
fn parse_entry(f: &str) -> (r: Result<PeerConfig, ConfigError>)
    ensures
        match (r, entry_result(f@)) {
            (Ok(p), Ok(m)) => p.node_id == m.node_id && p.endpoint@ == m.endpoint && p.pull_interval_secs == m.pull_interval_secs,
            (Err(e), Err(m)) => e == m,
            _ => false,
        },
{
    let n = f.unicode_len();
    let a = find_char(f, '@', 0);
    proof {
        lemma_find_from_bounds(f@, '@', 0);
    }
    if a >= n {
        return Err(ConfigError::Invalid(PEERS_VAR, NO_AT_SIGN));
    }
    match parse_u64(f.substring_char(0, a)) {
        None => Err(ConfigError::Invalid(PEERS_VAR, BAD_NODE_ID)),
        Some(id) => Ok(
            PeerConfig {
                node_id: NodeId(id),
                endpoint: String::from_str(f.substring_char(a + 1, n)),
                pull_interval_secs: DEFAULT_PULL_INTERVAL_SECS,
            },
        ),
    }
}

/// Parse a peer list such as `2@http://a:3002, 3@http://b:3003`. Entries
/// are separated by commas and trimmed; blank entries are skipped. Each
/// other entry must be `node_id@endpoint` with a `u64` node id; the first
/// entry that is not fails the whole list.
pub fn parse_peers(s: &str) -> (r: Result<Vec<PeerConfig>, ConfigError>)
    ensures
        match (r, peers_from(s@, 0)) {
            (Ok(v), Ok(m)) => peer_views(v@) == m,
            (Err(e), Err(m)) => e == m,
            _ => false,
        },
{
    let n = s.unicode_len();
    let mut peers: Vec<PeerConfig> = Vec::new();
    let mut i: usize = 0;
    loop
        invariant
            n == s@.len(),
            i <= n,
            peers_from(s@, 0) == after(peer_views(peers@), peers_from(s@, i as int)),
        decreases n - i,
    {
        let e = find_char(s, ',', i);
        proof {
            lemma_find_from_bounds(s@, ',', i as int);
        }
        let f = trim_text(s.substring_char(i, e));
        let ghost rest = if e < n {
            peers_from(s@, e + 1)
        } else {
            Ok(Seq::<PeerModel>::empty())
        };
        if f.unicode_len() > 0 {
            match parse_entry(f) {
                Err(err) => {
                    return Err(err);
                },
                Ok(p) => {
                    let ghost before = peers@;
                    peers.push(p);
                    proof {
                        let m = entry_result(f@)->Ok_0;
                        assert(peer_views(peers@) =~= peer_views(before).push(m));
                        match rest {
                            Ok(ps) => {
                                assert(peer_views(before) + (seq![m] + ps) =~= peer_views(peers@) + ps);
                            },
                            Err(_) => {},
                        }
                    }
                },
            }
        } else {
            proof {
                assert(peers_from(s@, i as int) == rest);
            }
        }
        if e >= n {
            proof {
                assert(peer_views(peers@) + Seq::<PeerModel>::empty() =~= peer_views(peers@));
            }
            return Ok(peers);
        }
        i = e + 1;
    }
}

} // verus!

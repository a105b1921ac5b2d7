//! Player host configuration.
//!
//! The player address comes from an environment-style string of the shape
//! `password@host`, where the host may be a TCP address, a filesystem path
//! to a local socket (starting with `/` or `~`), or an abstract socket name
//! (starting with `@`).  The port comes from a second string holding a
//! decimal number.  The shell reads the environment and opens the
//! connection; the parsing rules live here.

use vstd::prelude::*;

verus! {

/// Where the player listens: a TCP host, a filesystem socket path, or an
/// abstract socket name.
pub enum HostTarget {
    /// Connect over TCP to this host name or address.
    Tcp(Vec<u8>),
    /// Connect to the local socket at this filesystem path.
    UnixPath(Vec<u8>),
    /// Connect to the abstract local socket with this name.
    Abstract(Vec<u8>),
}

/// A parsed host setting: an optional password and the connection target.
pub struct HostConfig {
    pub password: Option<Vec<u8>>,
    pub target: HostTarget,
}

/// The position of the first `@` in `s`, if any.
pub open spec fn first_at(s: Seq<u8>) -> Option<int> {
    crate::bytes::first_index(s, 64u8)
}

/// The password part of the host string: everything before the first `@`,
/// provided that `@` exists and is not the first byte.
pub open spec fn spec_password(s: Seq<u8>) -> Option<Seq<u8>> {
    match first_at(s) {
        Some(i) => if i == 0 {
            None
        } else {
            Some(s.take(i))
        },
        None => None,
    }
}

/// The host part: everything after the first `@` when a password is present,
/// the whole string otherwise.
pub open spec fn spec_host(s: Seq<u8>) -> Seq<u8> {
    match first_at(s) {
        Some(i) => if i == 0 {
            s
        } else {
            s.skip(i + 1)
        },
        None => s,
    }
}

/// Whether `t` is the connection target that the host part `host` names: a
/// path if `host` starts with `/` or `~`, an abstract socket name (the bytes
/// after the leading `@`) if it starts with `@`, and a TCP host otherwise.
pub open spec fn target_matches(t: HostTarget, host: Seq<u8>) -> bool {
    if host.len() > 0 && (host[0] == 47u8 || host[0] == 126u8) {
        t matches HostTarget::UnixPath(p) && p@ == host
    } else if host.len() > 0 && host[0] == 64u8 {
        t matches HostTarget::Abstract(n) && n@ == host.skip(1)
    } else {
        t matches HostTarget::Tcp(h) && h@ == host
    }
}

/// Whether two optional byte strings agree.
pub open spec fn option_bytes_match(a: Option<Vec<u8>>, b: Option<Seq<u8>>) -> bool {
    match (a, b) {
        (Some(x), Some(y)) => x@ == y,
        (None, None) => true,
        _ => false,
    }
}

/// Splits a host setting into its optional password and connection target.
///
/// A `password@host` shape yields the password and the part after the `@`;
/// a string with no `@`, or one starting with `@` (an abstract socket
/// name), carries no password.
pub fn parse_mpd_host(setting: &Vec<u8>) -> (r: HostConfig)
    ensures
        option_bytes_match(r.password, spec_password(setting@)),
        target_matches(r.target, spec_host(setting@)),
{
    let mut k: usize = 0;
    while k < setting.len() && setting[k] != 64u8
        invariant
            0 <= k <= setting.len(),
            forall|j: int| 0 <= j < k ==> setting@[j] != 64u8,
        decreases setting.len() - k,
    {
        k += 1;
    }
    proof {
        if k < setting.len() {
            crate::bytes::lemma_first_index_at(setting@, 64u8, k as int);
        } else {
            crate::bytes::lemma_first_index_none(setting@, 64u8);
        }
    }
    let found = k < setting.len();
    let (password, host_start): (Option<Vec<u8>>, usize) = if found && k > 0 {
        let mut pw: Vec<u8> = Vec::new();
        let mut j: usize = 0;
        while j < k
            invariant
                0 <= j <= k < setting.len(),
                pw@ == setting@.take(j as int),
            decreases k - j,
        {
            pw.push(setting[j]);
            assert(pw@ =~= setting@.take((j + 1) as int));
            j += 1;
        }
        (Some(pw), k + 1)
    } else {
        (None, 0)
    };
    let mut host: Vec<u8> = Vec::new();
    let mut j: usize = host_start;
    while j < setting.len()
        invariant
            host_start <= j <= setting.len(),
            host@ == setting@.subrange(host_start as int, j as int),
        decreases setting.len() - j,
    {
        host.push(setting[j]);
        assert(host@ =~= setting@.subrange(host_start as int, (j + 1) as int));
        j += 1;
    }
    assert(host@ =~= spec_host(setting@));
    let target = if host.len() > 0 && (host[0] == 47u8 || host[0] == 126u8) {
        HostTarget::UnixPath(host)
    } else if host.len() > 0 && host[0] == 64u8 {
        let mut name: Vec<u8> = Vec::new();
        let mut j2: usize = 1;
        while j2 < host.len()
            invariant
                1 <= j2 <= host.len(),
                name@ == host@.subrange(1, j2 as int),
            decreases host.len() - j2,
        {
            name.push(host[j2]);
            assert(name@ =~= host@.subrange(1, (j2 + 1) as int));
            j2 += 1;
        }
        assert(name@ =~= host@.skip(1));
        HostTarget::Abstract(name)
    } else {
        HostTarget::Tcp(host)
    };
    HostConfig { password, target }
}

/// Whether every byte of `d` is a decimal digit.
pub open spec fn all_digits(d: Seq<u8>) -> bool {
    forall|i: int| 0 <= i < d.len() ==> 48u8 <= #[trigger] d[i] <= 57u8
}

/// Whether `s` is a well-formed decimal port: an optional leading `+`, then
/// one or more digits, with value at most `u16::MAX`.
pub open spec fn valid_port(s: Seq<u8>) -> bool {
    &&& port_digits(s).len() > 0
    &&& all_digits(port_digits(s))
    &&& port_value(port_digits(s)) <= u16::MAX
}

/// The number a digit string denotes.
pub open spec fn port_value(digits: Seq<u8>) -> int
    decreases digits.len(),
{
    if digits.len() == 0 {
        0
    } else {
        port_value(digits.drop_last()) * 10 + (digits.last() - 48u8)
    }
}

/// The digit part of a port string, with any leading `+` removed.
pub open spec fn port_digits(s: Seq<u8>) -> Seq<u8> {
    if s.len() > 0 && s[0] == 43u8 {
        s.skip(1)
    } else {
        s
    }
}

/// Reads a decimal port number: `Some` exactly on well-formed ports, with
/// the denoted value.
pub fn parse_port(s: &Vec<u8>) -> (r: Option<u16>)
    ensures
        valid_port(s@) <==> r is Some,
        r is Some ==> r.unwrap() as int == port_value(port_digits(s@)),
{
    let start: usize = if s.len() > 0 && s[0] == 43u8 {
        1
    } else {
        0
    };
    if s.len() == start {
        proof {
            assert(port_digits(s@).len() == 0);
        }
        return None;
    }
    let ghost digits = port_digits(s@);
    let mut value: u32 = 0;
    let mut i: usize = start;
    while i < s.len()
        invariant
            start <= i <= s.len(),
            start == if s@.len() > 0 && s@[0] == 43u8 { 1int } else { 0int },
            digits == port_digits(s@),
            digits == s@.skip(start as int),
            value as int == port_value(digits.take(i - start)),
            value <= u16::MAX,
            forall|j: int| start <= j < i ==> 48u8 <= #[trigger] s@[j] <= 57u8,
        decreases s.len() - i,
    {
        let b = s[i];
        if b < 48u8 || b > 57u8 {
            proof {
                assert(digits[i - start] == s@[i as int]);
                assert(!all_digits(digits));
                assert(!valid_port(s@));
            }
            return None;
        }
        let d = (b - 48u8) as u32;
        let next = value * 10 + d;
        proof {
            assert(digits.take(i - start + 1).drop_last() =~= digits.take(i - start));
            assert(digits.take(i - start + 1).last() == s@[i as int]);
            assert(port_value(digits.take(i - start + 1)) == next as int);
        }
        if next > u16::MAX as u32 {
            proof {
                if all_digits(digits) {
                    lemma_port_value_monotonic(digits, i - start + 1);
                    assert(port_value(digits) > u16::MAX);
                }
                assert(!valid_port(s@));
            }
            return None;
        }
        value = next;
        i += 1;
    }
    proof {
        assert(digits.take(i - start) =~= digits);
    }
    Some(value as u16)
}

/// A digit string's value only grows as digits are appended.
proof fn lemma_port_value_monotonic(digits: Seq<u8>, k: int)
    requires
        0 <= k <= digits.len(),
        forall|i: int| 0 <= i < digits.len() ==> 48u8 <= #[trigger] digits[i] <= 57u8,
    ensures
        port_value(digits) >= port_value(digits.take(k)),
        port_value(digits) >= 0,
    decreases digits.len(),
{
    if digits.len() == 0 {
    } else if k == digits.len() {
        assert(digits.take(k) =~= digits);
        lemma_port_value_monotonic(digits.drop_last(), k - 1);
    } else {
        lemma_port_value_monotonic(digits.drop_last(), k);
        assert(digits.drop_last().take(k) =~= digits.take(k));
    }
}

} // verus!

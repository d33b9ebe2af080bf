//! DNS resolution support: which of the resolved addresses the engine
//! connects to. The lookup itself is I/O and stays outside the
//! library; it hands in the address family of each candidate (IPv4 or
//! not), and the selection — the first address whose family the caller
//! allows — is decided here.

use crate::ascii::{
    all_digits, dec_value, find_byte, idx_of, lemma_first_occurrence_is_idx_of,
    lemma_no_occurrence_idx_of,
};
use crate::strconv::{lemma_encode_utf8_concat, lemma_split_after_ascii, string_from_utf8};
use vstd::prelude::*;
use vstd::string::StringExecFns;
use vstd::utf8::{encode_utf8, is_ascii_chars, valid_utf8};

verus! {

/// A candidate address at index `i` may be used when its family is
/// switched on.
pub open spec fn family_allowed(is_v4: Seq<bool>, ipv4: bool, ipv6: bool, i: int) -> bool {
    (ipv4 && is_v4[i]) || (ipv6 && !is_v4[i])
}

/// Split one `host:port:address` override into the authority
/// (`host:port`) and the socket address in text form (`address:port`).
/// `None` when a piece is missing or the port is not a decimal number
/// that fits the machine.
pub fn parse_resolve_entry(s: &str) -> (r: Option<(String, String)>)
    ensures
        ({
            let sb = encode_utf8(s@);
            let i = idx_of(sb, 0x3a);
            let rest = sb.subrange(i + 1, sb.len() as int);
            let j = idx_of(rest, 0x3a);
            let port = rest.take(j);
            let addr = rest.subrange(j + 1, rest.len() as int);
            let well_formed = i < sb.len() && j < rest.len() && port.len() > 0 && all_digits(port)
                && dec_value(port) <= usize::MAX;
            match r {
                Some(p) => well_formed && encode_utf8(p.0@) == sb.take(i) + seq![0x3au8] + port
                    && encode_utf8(p.1@) == addr + seq![0x3au8] + port,
                None => !well_formed,
            }
        }),
{
    broadcast use vstd::utf8::encode_utf8_valid_utf8;

    let bytes = s.as_bytes();
    let n = bytes.len();
    let ghost sb = encode_utf8(s@);
    let i = match find_byte(bytes, 0x3a, 0) {
        Some(i) => i,
        None => {
            proof {
                lemma_no_occurrence_idx_of(sb, 0x3a);
            }
            return None;
        },
    };
    proof {
        lemma_first_occurrence_is_idx_of(sb, 0x3a, i as int);
    }
    let ghost rest = sb.subrange(i as int + 1, sb.len() as int);
    let j = match find_byte(bytes, 0x3a, i + 1) {
        Some(j) => j,
        None => {
            proof {
                assert(forall|m: int| 0 <= m < rest.len() ==> rest[m] == #[trigger] sb[i + 1 + m]);
                lemma_no_occurrence_idx_of(rest, 0x3a);
            }
            return None;
        },
    };
    proof {
        assert(forall|m: int| 0 <= m < rest.len() ==> rest[m] == #[trigger] sb[i + 1 + m]);
        assert(rest[j - i - 1] == 0x3a);
        lemma_first_occurrence_is_idx_of(rest, 0x3a, j - i - 1);
    }
    let port_vec = crate::ascii::bytes_subrange(bytes, i + 1, j);
    proof {
        assert(port_vec@ =~= rest.take(j - i - 1));
    }
    match crate::ascii::parse_dec(port_vec.as_slice()) {
        Some(_) => {},
        None => {
            return None;
        },
    }
    proof {
        lemma_split_after_ascii(sb, i as int);
        lemma_split_after_ascii(rest, j - i - 1);
        assert(rest.subrange(0, j - i - 1) =~= rest.take(j - i - 1));
    }
    let host_vec = crate::ascii::bytes_subrange(bytes, 0, i);
    let addr_vec = crate::ascii::bytes_subrange(bytes, j + 1, n);
    proof {
        assert(host_vec@ =~= sb.subrange(0, i as int));
        assert(addr_vec@ =~= rest.subrange(j - i - 1 + 1, rest.len() as int));
    }
    let host = match string_from_utf8(host_vec) {
        Ok(h) => h,
        Err(_) => {
            proof {
                assert(false);
            }
            vstd::pervasive::unreached()
        },
    };
    let port_str = match string_from_utf8(port_vec) {
        Ok(p) => p,
        Err(_) => {
            proof {
                assert(false);
            }
            vstd::pervasive::unreached()
        },
    };
    let addr = match string_from_utf8(addr_vec) {
        Ok(a) => a,
        Err(_) => {
            proof {
                assert(false);
            }
            vstd::pervasive::unreached()
        },
    };
    proof {
        reveal_strlit(":");
        assert(is_ascii_chars(":"@));
        vstd::utf8::is_ascii_chars_encode_utf8(":"@);
        assert(encode_utf8(":"@) =~= seq![0x3au8]);
        lemma_encode_utf8_concat(host@, ":"@);
        lemma_encode_utf8_concat(host@ + ":"@, port_str@);
        lemma_encode_utf8_concat(addr@, ":"@);
        lemma_encode_utf8_concat(addr@ + ":"@, port_str@);
    }
    let mut authority = host;
    authority.append(":");
    authority.append(port_str.as_str());
    let mut sockaddr = addr;
    sockaddr.append(":");
    sockaddr.append(port_str.as_str());
    Some((authority, sockaddr))
}

pub struct Resolver {
    pub verbose: bool,
}

impl Resolver {
    pub fn new(verbose: bool) -> (r: Self)
        ensures
            r.verbose == verbose,
    {
        Resolver { verbose }
    }

    /// Pick the first resolved address whose family (`true` for IPv4)
    /// passes the caller's family switches. `None` when the filter
    /// eliminates every candidate.
    pub fn select_addr(&self, is_v4: &Vec<bool>, ipv4: bool, ipv6: bool) -> (r: Option<usize>)
        ensures
            match r {
                Some(i) => i < is_v4@.len() && family_allowed(is_v4@, ipv4, ipv6, i as int) && (
                forall|j: int| 0 <= j < i ==> !family_allowed(is_v4@, ipv4, ipv6, j)),
                None => forall|j: int|
                    0 <= j < is_v4@.len() ==> !family_allowed(is_v4@, ipv4, ipv6, j),
            },
    {
        let mut i: usize = 0;
        while i < is_v4.len()
            invariant
                0 <= i <= is_v4@.len(),
                forall|j: int| 0 <= j < i ==> !family_allowed(is_v4@, ipv4, ipv6, j),
            decreases is_v4@.len() - i,
        {
            let v4 = is_v4[i];
            if (ipv4 && v4) || (ipv6 && !v4) {
                return Some(i);
            }
            assert(!family_allowed(is_v4@, ipv4, ipv6, i as int));
            i = i + 1;
        }
        None
    }
}

} // verus!

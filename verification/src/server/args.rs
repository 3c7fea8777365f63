//! The command line of the server.

use std::collections::HashMap;
use vstd::prelude::*;
use crate::server::server::ServerConfig;
use crate::text::{
    decimal, decimal_text, digit_char, find_char, index_of_char, joined, law_number_round_trip,
    lemma_decimal_value, lemma_index_of_char, number_of, parse_u64, slice, starts_with,
    strip_prefix,
};
use crate::words::{law_trimming_takes_ends_off, same, trim, trimmed, white};

verus! {

broadcast use vstd::std_specs::hash::group_hash_axioms;

/// Texts as they read.
pub open spec fn texts(args: Seq<String>) -> Seq<Seq<char>> {
    Seq::new(args.len(), |i: int| args[i]@)
}

/// The argument that follows the first `flag` from `from` on.
pub open spec fn arg_after(args: Seq<Seq<char>>, flag: Seq<char>, from: int) -> Option<Seq<char>>
    decreases args.len() - from,
{
    if from < 0 || from >= args.len() {
        None
    } else if args[from] == flag {
        if from + 1 < args.len() {
            Some(args[from + 1])
        } else {
            None
        }
    } else {
        arg_after(args, flag, from + 1)
    }
}

/// A text that is there or not reads as expected.
pub open spec fn reads(r: Option<String>, expected: Option<Seq<char>>) -> bool {
    match expected {
        Some(t) => r matches Some(s) && s@ == t,
        None => r is None,
    }
}

/// The argument that follows a flag.
pub fn get_arg(args: &Vec<String>, flag: &str) -> (r: Option<String>)
    ensures
        reads(r, arg_after(texts(args@), flag@, 0)),
{
    let len: usize = args.len();
    let mut i: usize = 0;
    while i < len
        invariant
            i <= len,
            len == args@.len(),
            arg_after(texts(args@), flag@, 0) == arg_after(texts(args@), flag@, i as int),
        decreases len - i,
    {
        if same(args[i].as_str(), flag) {
            if i < len - 1 {
                return Some(args[i + 1].clone());
            }
            return None;
        }
        i += 1;
    }
    None
}

/// A text, cut at every `c`.
pub open spec fn split(s: Seq<char>, c: char) -> Seq<Seq<char>>
    decreases s.len(),
{
    let end = index_of_char(s, c, 0);
    if end < 0 || end >= s.len() {
        seq![s]
    } else {
        seq![s.take(end)] + split(s.skip(end + 1), c)
    }
}

/// A node and its address, where a text says both: the number, an equals sign,
/// the address, with white space round them allowed.
pub open spec fn peer_of(piece: Seq<char>) -> Option<(u64, Seq<char>)> {
    let t = trimmed(piece);
    let end = index_of_char(t, '=', 0);
    if end < t.len() {
        match number_of(trimmed(t.take(end))) {
            Some(id) => Some((id, trimmed(t.skip(end + 1)))),
            None => None,
        }
    } else {
        None
    }
}

/// The addresses that pieces name; of two for one node the later counts, and a
/// piece that names none is passed over.
pub open spec fn peers_of(pieces: Seq<Seq<char>>) -> Map<u64, Seq<char>>
    decreases pieces.len(),
{
    if pieces.len() == 0 {
        Map::empty()
    } else {
        match peer_of(pieces.last()) {
            Some((id, address)) => peers_of(pieces.drop_last()).insert(id, address),
            None => peers_of(pieces.drop_last()),
        }
    }
}

/// Addresses as they read.
pub open spec fn addresses(m: Map<u64, String>) -> Map<u64, Seq<char>> {
    m.map_values(|s: String| s@)
}

/// Reads a node and its address.
fn parse_peer(piece: &str) -> (r: Option<(u64, String)>)
    ensures
        match peer_of(piece@) {
            Some((id, address)) => r matches Some((i, a)) && i == id && a@ == address,
            None => r is None,
        },
{
    let t: String = trim(piece);
    let len: usize = t.as_str().unicode_len();
    let end: usize = find_char(t.as_str(), '=', 0);
    if end >= len {
        return None;
    }
    let head: String = slice(t.as_str(), 0, end);
    let tail: String = slice(t.as_str(), end + 1, len);
    assert(head@ =~= t@.take(end as int));
    assert(tail@ =~= t@.skip(end + 1));
    match parse_u64(trim(head.as_str()).as_str()) {
        Some(id) => Some((id, trim(tail.as_str()))),
        None => None,
    }
}

/// Reads the addresses of nodes, which commas separate.
pub fn parse_peers(s: &str) -> (r: HashMap<u64, String>)
    ensures
        addresses(r@) == peers_of(split(s@, ',')),
{
    let len: usize = s.unicode_len();
    let mut map: HashMap<u64, String> = HashMap::new();
    let mut start: usize = 0;
    let ghost mut done: Seq<Seq<char>> = Seq::empty();
    proof {
        assert(s@.skip(0) =~= s@);
        assert(done + split(s@, ',') =~= split(s@, ','));
        assert(addresses(map@) =~= Map::<u64, Seq<char>>::empty());
    }
    loop
        invariant
            start <= len,
            len == s@.len(),
            addresses(map@) == peers_of(done),
            split(s@, ',') == done + split(s@.skip(start as int), ','),
        decreases len - start,
    {
        let end: usize = find_char(s, ',', start);
        let piece: String = slice(s, start, end);
        let ghost rest = s@.skip(start as int);
        let ghost before = map@;
        proof {
            lemma_index_shift(s@, ',', start as int);
            assert(piece@ =~= rest.take(end - start));
        }
        match parse_peer(piece.as_str()) {
            Some((id, address)) => {
                map.insert(id, address);
                assert(addresses(map@) =~= addresses(before).insert(id, address@));
            },
            None => {},
        }
        proof {
            assert(done.push(piece@).drop_last() =~= done);
            assert(peers_of(done.push(piece@)) == addresses(map@));
        }
        if end == len {
            proof {
                assert(rest.take(end - start) =~= rest);
                assert(done + seq![rest] =~= done.push(rest));
            }
            return map;
        }
        proof {
            assert(rest.skip(end - start + 1) =~= s@.skip(end + 1));
            assert(done + (seq![piece@] + split(s@.skip(end + 1), ',')) =~= done.push(piece@)
                + split(s@.skip(end + 1), ','));
            done = done.push(piece@);
        }
        start = end + 1;
    }
}

/// A search from a place on finds what a search in the rest finds.
proof fn lemma_index_shift(s: Seq<char>, c: char, from: int)
    requires
        0 <= from <= s.len(),
    ensures
        index_of_char(s, c, from) == from + index_of_char(s.skip(from), c, 0),
{
    let rest = s.skip(from);
    lemma_index_of_char(s, c, from);
    lemma_index_of_char(rest, c, 0);
    let a = index_of_char(s, c, from);
    let b = index_of_char(rest, c, 0);
    if a < from + b {
        assert(rest[a - from] == s[a]);
    }
    if from + b < a {
        assert(s[from + b] == rest[b]);
    }
}

/// Why a command line does not set up a server.
#[derive(Debug, Clone, Copy, PartialEq, Eq, Structural)]
pub enum ArgError {
    /// The node's number is missing or is not one.
    NoId,
    /// The addresses are missing.
    NoPeers,
    /// No address could be read.
    EmptyPeers,
    /// The node itself has no address.
    NotInPeers(u64),
}

/// An address without the scheme before it.
pub open spec fn bind_address(address: Seq<char>) -> Seq<char> {
    if starts_with(address, "http://"@) {
        address.skip("http://"@.len() as int)
    } else {
        address
    }
}

/// What the command line gives, or what it leaves out.
pub open spec fn given(arg: Option<Seq<char>>, default: Seq<char>) -> Seq<char> {
    match arg {
        Some(t) => t,
        None => default,
    }
}

/// The number of the node that a command line names.
pub open spec fn id_arg(args: Seq<Seq<char>>) -> Option<u64> {
    match arg_after(args, "--id"@, 0) {
        Some(t) => number_of(t),
        None => None,
    }
}

/// A server is set up as a command line says, with the node's own address and
/// with the defaults for what it leaves out.
pub open spec fn configures(args: Seq<Seq<char>>, r: Result<ServerConfig, ArgError>) -> bool {
    match (id_arg(args), arg_after(args, "--peers"@, 0)) {
        (None, _) => r == Err::<ServerConfig, ArgError>(ArgError::NoId),
        (Some(_), None) => r == Err::<ServerConfig, ArgError>(ArgError::NoPeers),
        (Some(id), Some(peers)) => {
            let cluster = peers_of(split(peers, ','));
            if cluster.dom().len() == 0 {
                r == Err::<ServerConfig, ArgError>(ArgError::EmptyPeers)
            } else if !cluster.contains_key(id) {
                r == Err::<ServerConfig, ArgError>(ArgError::NotInPeers(id))
            } else {
                r matches Ok(c) && {
                    &&& c.node_id == id
                    &&& addresses(c.cluster@) == cluster
                    &&& c.listen_addr@ == bind_address(cluster[id])
                    &&& c.data_dir@ == given(
                        arg_after(args, "--data-dir"@, 0),
                        "data/node-"@ + decimal(id as nat),
                    )
                    &&& reads(
                        c.http_addr,
                        Some(
                            given(
                                arg_after(args, "--http"@, 0),
                                "127.0.0.1:909"@ + decimal(id as nat),
                            ),
                        ),
                    )
                    &&& c.election_timeout_min_ms == 10000
                    &&& c.election_timeout_max_ms == 15000
                    &&& c.heartbeat_interval_ms == 1000
                }
            }
        },
    }
}

/// Sets up a server from its command line.
pub fn server_config(args: &Vec<String>) -> (r: Result<ServerConfig, ArgError>)
    ensures
        configures(texts(args@), r),
{
    let node_id: u64 = match get_arg(args, "--id") {
        Some(t) => match parse_u64(t.as_str()) {
            Some(id) => id,
            None => {
                return Err(ArgError::NoId);
            },
        },
        None => {
            return Err(ArgError::NoId);
        },
    };
    let peers: String = match get_arg(args, "--peers") {
        Some(t) => t,
        None => {
            return Err(ArgError::NoPeers);
        },
    };
    let cluster: HashMap<u64, String> = parse_peers(peers.as_str());
    let ghost expected = peers_of(split(peers@, ','));
    assert(expected.dom() =~= cluster@.dom());
    if cluster.len() == 0 {
        return Err(ArgError::EmptyPeers);
    }
    let listen: String = match cluster.get(&node_id) {
        Some(address) => match strip_prefix(address.as_str(), "http://") {
            Some(bare) => bare,
            None => address.clone(),
        },
        None => {
            return Err(ArgError::NotInPeers(node_id));
        },
    };
    assert(expected[node_id] == cluster@[node_id]@);
    let data_dir: String = match get_arg(args, "--data-dir") {
        Some(t) => t,
        None => joined("data/node-", decimal_text(node_id).as_str()),
    };
    let http_addr: String = match get_arg(args, "--http") {
        Some(t) => t,
        None => joined("127.0.0.1:909", decimal_text(node_id).as_str()),
    };
    Ok(
        ServerConfig {
            node_id,
            cluster,
            data_dir,
            listen_addr: listen,
            http_addr: Some(http_addr),
            election_timeout_min_ms: 10000,
            election_timeout_max_ms: 15000,
            heartbeat_interval_ms: 1000,
        },
    )
}

/// A flag has the word that follows its first place.
pub proof fn law_flags_have_the_next_word(args: Seq<Seq<char>>, flag: Seq<char>, from: int, at: int)
    requires
        0 <= from <= at < args.len(),
        args[at] == flag,
        forall|i: int| from <= i < at ==> #[trigger] args[i] != flag,
    ensures
        at + 1 < args.len() ==> arg_after(args, flag, from) == Some(args[at + 1]),
        at + 1 == args.len() ==> arg_after(args, flag, from) is None,
    decreases at - from,
{
    if from < at {
        law_flags_have_the_next_word(args, flag, from + 1, at);
    }
}

/// A flag that is not there has no value.
pub proof fn law_missing_flags_have_no_value(args: Seq<Seq<char>>, flag: Seq<char>, from: int)
    requires
        0 <= from,
        forall|i: int| from <= i < args.len() ==> #[trigger] args[i] != flag,
    ensures
        arg_after(args, flag, from) is None,
    decreases args.len() - from,
{
    if from < args.len() {
        law_missing_flags_have_no_value(args, flag, from + 1);
    }
}

/// A text is cut at each separator: the first piece ends before the first one, and
/// what follows is cut on.
pub proof fn law_pieces_lie_between_separators(piece: Seq<char>, c: char, rest: Seq<char>)
    requires
        !piece.contains(c),
    ensures
        split(piece, c) == seq![piece],
        split(piece + seq![c] + rest, c) == seq![piece] + split(rest, c),
{
    lemma_index_of_char(piece, c, 0);
    let all = piece + seq![c] + rest;
    lemma_index_of_char(all, c, 0);
    let end = index_of_char(all, c, 0);
    assert(all[piece.len() as int] == c);
    if end < piece.len() {
        assert(piece[end] == c);
    }
    assert(all.take(end) =~= piece);
    assert(all.skip(end + 1) =~= rest);
}

/// A node's number and address, with an equals sign between them, are read as
/// they stand, and join the nodes that were read before.
pub proof fn law_peers_are_read(pieces: Seq<Seq<char>>, id: u64, address: Seq<char>)
    requires
        address.len() > 0,
        !white(address[0]),
        !white(address.last()),
    ensures
        peer_of(decimal(id as nat) + seq!['='] + address) == Some((id, address)),
        peers_of(pieces.push(decimal(id as nat) + seq!['='] + address)) == peers_of(pieces).insert(
            id,
            address,
        ),
{
    let digits = decimal(id as nat);
    let piece = digits + seq!['='] + address;
    let none = Seq::<char>::empty();
    law_number_round_trip(id);
    lemma_decimal_value(id as nat);
    lemma_only_digits(id as nat);
    law_trimming_takes_ends_off(none, piece, none);
    assert(none + piece + none =~= piece);
    lemma_index_of_char(piece, '=', 0);
    let end = index_of_char(piece, '=', 0);
    assert(piece[digits.len() as int] == '=');
    if end < digits.len() {
        assert(piece[end] == digits[end]);
    }
    assert(piece.take(end) =~= digits);
    assert(piece.skip(end + 1) =~= address);
    law_trimming_takes_ends_off(none, digits, none);
    assert(none + digits + none =~= digits);
    law_trimming_takes_ends_off(none, address, none);
    assert(none + address + none =~= address);
    assert(pieces.push(piece).drop_last() =~= pieces);
}

/// A number is written in digits.
proof fn lemma_only_digits(n: nat)
    ensures
        forall|i: int|
            0 <= i < decimal(n).len() ==> !white(#[trigger] decimal(n)[i]) && decimal(n)[i] != '=',
    decreases n,
{
    if n >= 10 {
        lemma_only_digits(n / 10);
        assert(decimal(n) =~= decimal(n / 10).push(digit_char(n % 10)));
    }
}

/// A node listens at its own address, without the scheme before it.
pub proof fn law_schemes_are_left_off(address: Seq<char>)
    ensures
        bind_address("http://"@ + address) == address,
        address.len() < 7 ==> bind_address(address) == address,
{
    reveal_strlit("http://");
    let whole = "http://"@ + address;
    assert(whole.take(7) =~= "http://"@);
    assert(whole.skip(7) =~= address);
    assert(starts_with(whole, "http://"@));
}

} // verus!

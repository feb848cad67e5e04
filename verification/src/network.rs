//! Which network to replay, and the paging decisions of fetching history.

use vstd::prelude::*;

use crate::text::{lowercase, to_lowercase};

verus! {

/// Which network to fork and read history from.
#[derive(Debug, Clone)]
pub enum Network {
    Mainnet,
    Testnet,
    Devnet,
    Custom(String),
}

/// The network a command-line value names, given the value and its
/// lowercase form: one of the public networks by name, or else a custom node
/// URL taken verbatim.
pub open spec fn network_named(value: Seq<char>, lower: Seq<char>, n: Network) -> bool {
    if lower == "mainnet"@ {
        n is Mainnet
    } else if lower == "testnet"@ {
        n is Testnet
    } else if lower == "devnet"@ {
        n is Devnet
    } else {
        n matches Network::Custom(url) && url@ == value
    }
}

/// The network a command-line value names: one of the public networks by
/// name, in any letter case, or else a custom node URL taken verbatim.
pub open spec fn names_network(value: Seq<char>, n: Network) -> bool {
    network_named(value, lowercase(value), n)
}

/// The network named by `value`, whose lowercase form is `lower`.
pub fn network_from_lowercase(value: &str, lower: &str) -> (n: Network)
    ensures
        network_named(value@, lower@, n),
{
    let lower = String::from_str(lower);
    if lower == String::from_str("mainnet") {
        Network::Mainnet
    } else if lower == String::from_str("testnet") {
        Network::Testnet
    } else if lower == String::from_str("devnet") {
        Network::Devnet
    } else {
        Network::Custom(String::from_str(value))
    }
}

/// Parse a `--network` value.
pub fn parse_network(value: &str) -> (n: Network)
    ensures
        names_network(value@, n),
{
    let lower = to_lowercase(value);
    network_from_lowercase(value, lower.as_str())
}

/// Range of committed transactions to replay.
#[derive(Debug, Clone)]
pub struct ReplayConfig {
    pub network: Network,
    pub start_version: u64,
    pub count: u64,
}

/// Progress of fetching `count` user transactions page by page: where the
/// next page starts, how many user transactions were collected, and whether
/// history ran out.
#[derive(Debug, Clone, Copy, PartialEq, Eq, Structural)]
pub struct FetchProgress {
    pub cursor: u64,
    pub collected: u64,
    pub exhausted: bool,
}

/// Number of transactions requested per page.
pub const PAGE_SIZE: u16 = 1000;

/// Fetching starts at `start_version` with nothing collected.
pub fn fetch_start(start_version: u64) -> (p: FetchProgress)
    ensures
        p == (FetchProgress { cursor: start_version, collected: 0, exhausted: false }),
{
    FetchProgress { cursor: start_version, collected: 0, exhausted: false }
}

/// The version at which to fetch the next page, or `None` once enough user
/// transactions were collected or history ran out.
pub fn next_page_start(p: &FetchProgress, count: u64) -> (r: Option<u64>)
    ensures
        r == if p.exhausted || p.collected >= count {
            None::<u64>
        } else {
            Some(p.cursor)
        },
{
    if p.exhausted || p.collected >= count {
        None
    } else {
        Some(p.cursor)
    }
}

/// Number of user transactions among `is_user`.
pub open spec fn user_count(is_user: Seq<bool>) -> nat
    decreases is_user.len(),
{
    if is_user.len() == 0 {
        0
    } else {
        user_count(is_user.drop_last()) + if is_user.last() {
            1nat
        } else {
            0nat
        }
    }
}

/// Take in a fetched page, given the version of each transaction in it and
/// whether it is a user transaction. Every user transaction of the page is
/// collected; the next page starts after the last version seen; an empty page
/// means history ran out.
pub fn absorb_page(p: &FetchProgress, versions: &Vec<u64>, is_user: &Vec<bool>) -> (r: FetchProgress)
    requires
        versions@.len() == is_user@.len(),
        forall|i: int| 0 <= i < versions@.len() ==> #[trigger] versions@[i] < u64::MAX,
        p.collected + user_count(is_user@) <= u64::MAX,
    ensures
        versions@.len() == 0 ==> r == (FetchProgress { exhausted: true, ..*p }),
        versions@.len() > 0 ==> r == (FetchProgress {
            cursor: (versions@.last() + 1) as u64,
            collected: (p.collected + user_count(is_user@)) as u64,
            exhausted: false,
        }),
{
    if versions.len() == 0 {
        return FetchProgress { cursor: p.cursor, collected: p.collected, exhausted: true };
    }
    let mut cursor = p.cursor;
    let mut collected = p.collected;
    for k in 0..versions.len()
        invariant
            versions@.len() == is_user@.len(),
            versions@.len() > 0,
            forall|i: int| 0 <= i < versions@.len() ==> #[trigger] versions@[i] < u64::MAX,
            p.collected + user_count(is_user@) <= u64::MAX,
            collected == p.collected + user_count(is_user@.take(k as int)),
            k > 0 ==> cursor == versions@[k - 1] + 1,
    {
        proof {
            assert(is_user@.take(k + 1).drop_last() =~= is_user@.take(k as int));
            lemma_user_count_prefix(is_user@, k + 1);
        }
        cursor = versions[k] + 1;
        if is_user[k] {
            collected = collected + 1;
        }
    }
    proof {
        assert(is_user@.take(is_user@.len() as int) =~= is_user@);
    }
    FetchProgress { cursor, collected, exhausted: false }
}

proof fn lemma_user_count_prefix(s: Seq<bool>, k: int)
    requires
        0 <= k <= s.len(),
    ensures
        user_count(s.take(k)) <= user_count(s),
    decreases s.len() - k,
{
    if k < s.len() {
        lemma_user_count_prefix(s, k + 1);
        assert(s.take(k + 1).drop_last() =~= s.take(k));
    } else {
        assert(s.take(k) =~= s);
    }
}

/// How many of the collected user transactions are kept: at most `count`
/// (as a `usize`).
pub fn kept_count(collected: usize, count: u64) -> (r: usize)
    ensures
        r == if collected <= count as usize {
            collected
        } else {
            count as usize
        },
{
    let limit = count as usize;
    if collected <= limit {
        collected
    } else {
        limit
    }
}


/// A network value names a public network when, in lowercase, it is exactly
/// `mainnet`, `testnet` or `devnet`; any other value is a custom node URL,
/// kept with its letter case.
pub proof fn law_network_names(value: Seq<char>, lower: Seq<char>, n: Network)
    requires
        network_named(value, lower, n),
    ensures
        lower == "mainnet"@ ==> n == Network::Mainnet,
        lower == "testnet"@ ==> n == Network::Testnet,
        lower == "devnet"@ ==> n == Network::Devnet,
        lower != "mainnet"@ && lower != "testnet"@ && lower != "devnet"@ ==> (n matches Network::Custom(
            url,
        ) && url@ == value),
{
    reveal_strlit("mainnet");
    reveal_strlit("testnet");
    reveal_strlit("devnet");
    assert("mainnet"@ != "testnet"@ && "mainnet"@ != "devnet"@ && "testnet"@ != "devnet"@) by {
        assert("mainnet"@[0] != "testnet"@[0]);
        assert("mainnet"@[0] != "devnet"@[0]);
        assert("testnet"@[0] != "devnet"@[0]);
    }
}

} // verus!

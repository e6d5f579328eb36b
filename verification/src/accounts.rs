//! The accounts file: a YAML mapping from node key texts to stakes.

use vstd::prelude::*;
use vstd::string::StrSliceExecFns;
use crate::sort::{TotalOrder, sort_vec, sorted, bytes_le};
use serde_yaml::Error as YamlError;
use crate::gossip::Node;
use crate::pubkey::Pubkey;

verus! {

/// The mapping from key text to stake that YAML bytes hold, if they hold one.
pub uninterp spec fn yaml_accounts(yaml: Seq<u8>) -> Option<Map<Seq<char>, u64>>;

/// The outside error of YAML bytes that do not hold the expected mapping.
#[verifier::external_type_specification]
#[verifier::external_body]
pub struct ExYamlError(YamlError);

/// `v` lists the pairs of `m`: each key once, with its stake, and every key of `m`.
pub open spec fn lists_accounts(v: Seq<(String, u64)>, m: Map<Seq<char>, u64>) -> bool {
    &&& forall|i: int, j: int| 0 <= i < j < v.len() ==> #[trigger] v[i].0@ != #[trigger] v[j].0@
    &&& forall|i: int| 0 <= i < v.len() ==> m.contains_key(#[trigger] v[i].0@) && m[v[i].0@] == v[i].1
    &&& forall|k: Seq<char>| #[trigger] m.contains_key(k) ==> exists|i: int| 0 <= i < v.len() && #[trigger] v[i].0@ == k
}

/// Calls `serde_yaml::from_slice` into a `HashMap<String, u64>`: the pairs of the
/// mapping, in no stated order, exactly when `yaml_accounts` gives one, and the parse
/// error otherwise. Which error comes out is not stated.
#[verifier::external_body]
fn yaml_from_slice(yaml: &[u8]) -> (r: Result<Vec<(String, u64)>, YamlError>)
    ensures
        r is Ok <==> yaml_accounts(yaml@) is Some,
        r matches Ok(v) ==> lists_accounts(v@, yaml_accounts(yaml@)->0),
{
    match serde_yaml::from_slice::<std::collections::HashMap<String, u64>>(yaml) {
        Ok(m) => Ok(m.into_iter().collect()),
        Err(e) => Err(e),
    }
}

/// Calls `to_string` on a serde_yaml error: its message, of which nothing is stated.
#[verifier::external_body]
fn yaml_error_text(e: &YamlError) -> String {
    e.to_string()
}

/// An account with the UTF-8 bytes of its key text, by which accounts are ordered.
struct AccountRank {
    text: Vec<u8>,
    name: String,
    stake: u64,
}

impl TotalOrder for AccountRank {
    closed spec fn ord_le(self, other: Self) -> bool {
        bytes_le(self.text@, other.text@)
    }

    proof fn lemma_total(a: Self, b: Self) {
        crate::sort::lemma_bytes_le_total(a.text@, b.text@);
    }

    proof fn lemma_trans(a: Self, b: Self, c: Self) {
        crate::sort::lemma_bytes_le_trans(a.text@, b.text@, c.text@);
    }

    fn leq(&self, other: &Self) -> (r: bool) {
        crate::sort::bytes_leq(&self.text, &other.text)
    }
}

/// The keys of the accounts, in order.
spec fn account_keys(v: Seq<(String, u64)>) -> Seq<Seq<char>> {
    v.map_values(|p: (String, u64)| p.0@)
}

/// With distinct keys, a listing of `m` has as many pairs as `m` has keys.
proof fn lemma_listing_len(v: Seq<(String, u64)>, m: Map<Seq<char>, u64>)
    requires
        lists_accounts(v, m),
    ensures
        account_keys(v).to_set() == m.dom(),
        account_keys(v).no_duplicates(),
        m.dom().finite(),
        m.dom().len() == v.len(),
{
    let ks = account_keys(v);
    assert forall|k: Seq<char>| #[trigger] ks.to_set().contains(k) <==> m.dom().contains(k) by {
        if m.dom().contains(k) {
            assert(m.contains_key(k));
            let i = choose|i: int| 0 <= i < v.len() && #[trigger] v[i].0@ == k;
            assert(ks[i] == k);
        }
        if ks.to_set().contains(k) {
            let i = choose|i: int| 0 <= i < ks.len() && ks[i] == k;
            assert(v[i].0@ == k);
        }
    }
    assert(ks.to_set() =~= m.dom());
    assert forall|i: int, j: int| 0 <= i < ks.len() && 0 <= j < ks.len() && i != j implies ks[i] != ks[j] by {
        if i < j {
            assert(v[i].0@ != v[j].0@);
        } else {
            assert(v[j].0@ != v[i].0@);
        }
    }
    ks.unique_seq_to_set();
}

/// Reads the accounts from YAML bytes that hold a mapping from key text to stake: the
/// pairs of the mapping, each key once, ordered by the UTF-8 bytes of the key text;
/// the parse error's message when the bytes hold no such mapping.
pub fn parse_accounts(yaml: &[u8]) -> (r: Result<Vec<(String, u64)>, String>)
    ensures
        r is Ok <==> yaml_accounts(yaml@) is Some,
        r matches Ok(v) ==> {
            &&& lists_accounts(v@, yaml_accounts(yaml@)->0)
            &&& forall|i: int, j: int| 0 <= i < j < v@.len() ==> bytes_le(
                vstd::utf8::encode_utf8(#[trigger] v@[i].0@),
                vstd::utf8::encode_utf8(#[trigger] v@[j].0@),
            )
        },
{
    broadcast use vstd::seq_lib::group_to_multiset_ensures;

    let v = match yaml_from_slice(yaml) {
        Ok(v) => v,
        Err(e) => {
            return Err(yaml_error_text(&e));
        },
    };
    let ghost m = yaml_accounts(yaml@)->0;
    let mut ranks: Vec<AccountRank> = Vec::new();
    let mut i: usize = 0;
    while i < v.len()
        invariant
            0 <= i <= v@.len(),
            ranks@.len() == i,
            forall|q: int| 0 <= q < i ==> {
                &&& (#[trigger] ranks@[q]).name@ == v@[q].0@
                &&& ranks@[q].stake == v@[q].1
                &&& ranks@[q].text@ == vstd::utf8::encode_utf8(ranks@[q].name@)
            },
        decreases v@.len() - i,
    {
        let text = v[i].0.as_str().as_bytes_vec();
        let name = v[i].0.clone();
        ranks.push(AccountRank { text, name, stake: v[i].1 });
        i = i + 1;
    }
    let ghost r0 = ranks@;
    let sorted_ranks = sort_vec(ranks);
    let n = sorted_ranks.len();
    let mut out: Vec<(String, u64)> = Vec::new();
    let mut k: usize = 0;
    while k < n
        invariant
            n == sorted_ranks@.len(),
            0 <= k <= n,
            out@.len() == k,
            forall|q: int| 0 <= q < k ==> (#[trigger] out@[q]).0@ == sorted_ranks@[q].name@ && out@[q].1
                == sorted_ranks@[q].stake,
        decreases n - k,
    {
        let name = sorted_ranks[k].name.clone();
        out.push((name, sorted_ranks[k].stake));
        k = k + 1;
    }
    proof {
        let s = sorted_ranks@;
        assert(s.len() == v@.len());
        // Each sorted rank is one of the ranks made from `v`.
        assert forall|a: int| 0 <= a < s.len() implies exists|q: int|
            0 <= q < r0.len() && #[trigger] r0[q] == #[trigger] s[a] by {
            assert(s.to_multiset().count(s[a]) > 0);
            assert(r0.to_multiset().count(s[a]) > 0);
            assert(r0.contains(s[a]));
        }
        assert forall|a: int| 0 <= a < out@.len() implies m.contains_key(#[trigger] out@[a].0@) && m[out@[a].0@]
            == out@[a].1 && s[a].text@ == vstd::utf8::encode_utf8(out@[a].0@) by {
            let q = choose|q: int| 0 <= q < r0.len() && #[trigger] r0[q] == s[a];
            assert(m.contains_key(v@[q].0@));
        }
        // Every key of the mapping is listed.
        assert forall|key: Seq<char>| #[trigger] m.contains_key(key) implies exists|a: int|
            0 <= a < out@.len() && #[trigger] out@[a].0@ == key by {
            let q = choose|q: int| 0 <= q < v@.len() && #[trigger] v@[q].0@ == key;
            assert(r0[q].name@ == key);
            assert(r0.to_multiset().count(r0[q]) > 0);
            assert(s.to_multiset().count(r0[q]) > 0);
            assert(s.contains(r0[q]));
            let a = choose|a: int| 0 <= a < s.len() && s[a] == r0[q];
            assert(out@[a].0@ == key);
        }
        // As many pairs as keys, all keys listed: no key twice.
        lemma_listing_len(v@, m);
        let ks = account_keys(out@);
        assert forall|key: Seq<char>| #[trigger] ks.to_set().contains(key) <==> m.dom().contains(key) by {
            if m.dom().contains(key) {
                assert(m.contains_key(key));
                let a = choose|a: int| 0 <= a < out@.len() && #[trigger] out@[a].0@ == key;
                assert(ks[a] == key);
            }
            if ks.to_set().contains(key) {
                let a = choose|a: int| 0 <= a < ks.len() && ks[a] == key;
                assert(m.contains_key(out@[a].0@));
            }
        }
        assert(ks.to_set() =~= m.dom());
        ks.lemma_no_dup_set_cardinality();
        assert forall|a: int, b: int| 0 <= a < b < out@.len() implies #[trigger] out@[a].0@ != #[trigger] out@[b].0@ by {
            assert(ks[a] == out@[a].0@ && ks[b] == out@[b].0@);
        }
        assert forall|a: int, b: int| 0 <= a < b < out@.len() implies bytes_le(
            vstd::utf8::encode_utf8(#[trigger] out@[a].0@),
            vstd::utf8::encode_utf8(#[trigger] out@[b].0@),
        ) by {
            assert(sorted(s));
            assert(s[a].ord_le(s[b]));
        }
    }
    Ok(out)
}

/// The accounts of the nodes, in order, as (key, stake): all of them, or only those
/// with no stake when `zero_stakes` is set.
pub open spec fn account_candidates(nodes: Seq<Node>, zero_stakes: bool) -> Seq<(Pubkey, u64)>
    decreases nodes.len(),
{
    if nodes.len() == 0 {
        Seq::empty()
    } else {
        let prev = account_candidates(nodes.drop_last(), zero_stakes);
        let n = nodes.last();
        if !zero_stakes || n.stake_spec() == 0 {
            prev.push((n.key(), n.stake_spec()))
        } else {
            prev
        }
    }
}

/// The accounts to write out: the first `num_nodes` of the candidates (see
/// `account_candidates`), or all of them when there are fewer.
pub fn select_accounts(nodes: &[Node], num_nodes: u64, zero_stakes: bool) -> (r: Vec<(Pubkey, u64)>)
    requires
        num_nodes > 0 || account_candidates(nodes@, zero_stakes).len() == 0,
    ensures
        r@ == (if account_candidates(nodes@, zero_stakes).len() <= num_nodes {
            account_candidates(nodes@, zero_stakes)
        } else {
            account_candidates(nodes@, zero_stakes).take(num_nodes as int)
        }),
{
    let mut r: Vec<(Pubkey, u64)> = Vec::new();
    let mut i: usize = 0;
    while i < nodes.len()
        invariant
            0 <= i <= nodes@.len(),
            r@.len() <= num_nodes,
            r@ == (if account_candidates(nodes@.take(i as int), zero_stakes).len() <= num_nodes {
                account_candidates(nodes@.take(i as int), zero_stakes)
            } else {
                account_candidates(nodes@.take(i as int), zero_stakes).take(num_nodes as int)
            }),
            r@.len() < num_nodes ==> r@ == account_candidates(nodes@.take(i as int), zero_stakes),
        decreases nodes@.len() - i,
    {
        proof {
            assert(nodes@.take(i + 1).drop_last() =~= nodes@.take(i as int));
            assert(nodes@.take(i + 1).last() == nodes@[i as int]);
        }
        let stake = nodes[i].stake();
        if !zero_stakes || stake == 0 {
            if (r.len() as u64) < num_nodes {
                r.push((nodes[i].pubkey(), stake));
            } else {
                proof {
                    let c0 = account_candidates(nodes@.take(i as int), zero_stakes);
                    let c1 = account_candidates(nodes@.take(i + 1), zero_stakes);
                    assert(c1 == c0.push((nodes@[i as int].key(), stake)));
                    assert(c1.take(num_nodes as int) =~= c0.take(num_nodes as int));
                }
            }
        }
        i = i + 1;
    }
    proof {
        assert(nodes@.take(nodes@.len() as int) =~= nodes@);
    }
    r
}

} // verus!

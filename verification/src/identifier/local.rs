//! Identifies addresses by their code.
use crate::address::Address;
use crate::identifier::TraceIdentifier;
use crate::order::precedes;
use crate::order::{law_precedes_asymmetric, law_precedes_total, law_precedes_transitive};
use crate::ordered_map::{lists, OrderedMap};
use ethers::abi::Abi;
use std::borrow::Cow;
use vstd::prelude::*;
use vstd::string::*;

verus! {

/// The number of places below `n` at which `a` and `b` differ.
pub open spec fn differing(a: Seq<u8>, b: Seq<u8>, n: int) -> int
    decreases n,
{
    if n <= 0 {
        0
    } else {
        differing(a, b, n - 1) + if a[n - 1] != b[n - 1] {
            1int
        } else {
            0int
        }
    }
}

/// The length of the shorter of two codes.
pub open spec fn shorter_len(a: Seq<u8>, b: Seq<u8>) -> int {
    if a.len() < b.len() {
        a.len() as int
    } else {
        b.len() as int
    }
}

/// How far two codes differ: the fraction `diff_chars / cutoff_len`, between zero for codes that
/// agree as far as both go and one for codes that have nothing in common.
#[derive(Clone, Copy, Debug, PartialEq, Eq, Structural)]
pub struct DiffScore {
    pub diff_chars: usize,
    pub cutoff_len: usize,
}

impl DiffScore {
    /// Whether the fraction is smaller than one tenth.
    pub fn is_close(&self) -> (close: bool)
        ensures
            close == (10 * self.diff_chars < self.cutoff_len),
    {
        10u128 * (self.diff_chars as u128) < self.cutoff_len as u128
    }
}

/// Two codes that differ in less than a tenth of the bytes that both have.
pub open spec fn is_match(known: Seq<u8>, code: Seq<u8>) -> bool {
    10 * differing(known, code, shorter_len(known, code)) < shorter_len(known, code)
}

/// Very simple fuzzy matching of contract bytecode.
///
/// Will fail for small contracts that are essentially all immutable variables.
pub fn diff_score(a: &[u8], b: &[u8]) -> (score: DiffScore)
    ensures
        shorter_len(a@, b@) == 0 ==> score == (DiffScore { diff_chars: 1, cutoff_len: 1 }),
        shorter_len(a@, b@) > 0 ==> {
            &&& score.diff_chars == differing(a@, b@, shorter_len(a@, b@))
            &&& score.cutoff_len == shorter_len(a@, b@)
        },
        score.diff_chars <= score.cutoff_len,
        10 * score.diff_chars < score.cutoff_len <==> is_match(a@, b@),
{
    let cutoff_len: usize = if a.len() < b.len() {
        a.len()
    } else {
        b.len()
    };
    if cutoff_len == 0 {
        return DiffScore { diff_chars: 1, cutoff_len: 1 };
    }
    let mut diff_chars: usize = 0;
    let mut i: usize = 0;
    while i < cutoff_len
        invariant
            i <= cutoff_len,
            cutoff_len == shorter_len(a@, b@),
            diff_chars <= i,
            diff_chars == differing(a@, b@, i as int),
        decreases cutoff_len - i,
    {
        if a[i] != b[i] {
            diff_chars = diff_chars + 1;
        }
        i = i + 1;
    }
    DiffScore { diff_chars, cutoff_len }
}

/// A contract of the project: its name, its ABI, and its code once deployed.
pub struct KnownContract {
    /// The file that holds the contract's artifact, e.g. `"Foo.json"`.
    pub artifact: String,
    /// The name of the contract, e.g. `"Foo"`.
    pub name: String,
    pub abi: Abi,
    pub runtime_code: Vec<u8>,
}

/// What is known of a contract by its code: its artifact, its name and its ABI.
pub type LocalContract = (String, String, Abi);

/// How a contract is told from others: `"<artifact>:<contract>"`, e.g. `"Foo.json:Foo"`.
pub open spec fn qualified_name(artifact: Seq<char>, name: Seq<char>) -> Seq<char> {
    artifact + ":"@ + name
}

/// The file that holds an artifact of which the file's stem is given: `"Foo.json"` for `"Foo"`.
pub fn artifact_file(stem: &str) -> (file: String)
    ensures
        file@ == stem@ + ".json"@,
{
    let mut file: String = stem.to_owned();
    file.append(".json");
    file
}

/// What is known under each code. Of several contracts with the same code the last one counts.
pub open spec fn known_by_code(known: Seq<KnownContract>) -> Map<Seq<u8>, LocalContract>
    decreases known.len(),
{
    if known.len() == 0 {
        Map::empty()
    } else {
        let last = known.last();
        known_by_code(known.drop_last()).insert(
            last.runtime_code@,
            (last.artifact, last.name, last.abi),
        )
    }
}

/// Of the known codes that match `code`, `key` is the first in lexicographic order.
pub open spec fn is_first_match(
    contracts: Map<Seq<u8>, LocalContract>,
    code: Seq<u8>,
    key: Seq<u8>,
) -> bool {
    &&& contracts.contains_key(key)
    &&& is_match(key, code)
    &&& forall|other: Seq<u8>| #[trigger]
        contracts.contains_key(other) && is_match(other, code) && other != key ==> precedes(
            key,
            other,
        )
}

/// What is known under the first code that matches `code`.
pub open spec fn first_match(
    contracts: Map<Seq<u8>, LocalContract>,
    code: Seq<u8>,
) -> Option<LocalContract> {
    if exists|key: Seq<u8>| is_first_match(contracts, code, key) {
        Some(contracts[choose|key: Seq<u8>| is_first_match(contracts, code, key)])
    } else {
        None
    }
}

/// The local trace identifier keeps track of addresses that are instances of local contracts.
pub struct LocalTraceIdentifier {
    local_contracts: OrderedMap<Vec<u8>, LocalContract>,
}

impl LocalTraceIdentifier {
    /// The contracts by which addresses are identified: what is known under each code.
    pub closed spec fn contracts(&self) -> Map<Seq<u8>, LocalContract> {
        self.local_contracts@
    }

    /// An identifier for the contracts of a project, which are given in the order of their
    /// artifacts.
    pub fn new(known_contracts: &[KnownContract]) -> (identifier: Self)
        ensures
            identifier.contracts() == known_by_code(known_contracts@),
    {
        let mut local_contracts: OrderedMap<Vec<u8>, LocalContract> = OrderedMap::new();
        let mut i: usize = 0;
        while i < known_contracts.len()
            invariant
                i <= known_contracts@.len(),
                local_contracts@ == known_by_code(known_contracts@.take(i as int)),
            decreases known_contracts@.len() - i,
        {
            let known = &known_contracts[i];
            let code: Vec<u8> = known.runtime_code.clone();
            assert(code@ =~= known.runtime_code@);
            local_contracts.insert(
                code,
                (known.artifact.clone(), known.name.clone(), known.abi.clone()),
            );
            proof {
                let taken = known_contracts@.take(i + 1);
                assert(taken.drop_last() =~= known_contracts@.take(i as int));
            }
            i = i + 1;
        }
        assert(known_contracts@.take(i as int) =~= known_contracts@);
        LocalTraceIdentifier { local_contracts }
    }
}

impl TraceIdentifier for LocalTraceIdentifier {
    /// Finds the first known code, in lexicographic order, that matches the code at the address.
    /// The contract there is told by its artifact and its name; the name alone is the label.
    fn identify_address<'a>(&'a self, _address: &Address, code: Option<&Vec<u8>>) -> (identity: (
        Option<String>,
        Option<String>,
        Option<Cow<'a, Abi>>,
    ))
        ensures
            match code {
                None => identity == (None::<String>, None::<String>, None::<Cow<'a, Abi>>),
                Some(code) => match first_match(self.contracts(), code@) {
                    None => {
                        &&& identity == (None::<String>, None::<String>, None::<Cow<'a, Abi>>)
                        &&& forall|key: Seq<u8>| #[trigger]
                            self.contracts().contains_key(key) ==> !is_match(key, code@)
                    },
                    Some((artifact, name, abi)) => {
                        &&& identity.0 matches Some(contract) && contract@ == qualified_name(
                            artifact@,
                            name@,
                        )
                        &&& identity.1 == Some(name)
                        &&& identity.2 == Some(Cow::<'a, Abi>::Borrowed(&abi))
                    },
                },
            },
    {
        let seen: &Vec<u8> = match code {
            Some(seen) => seen,
            None => {
                return (None, None, None);
            },
        };
        let n: usize = self.local_contracts.len();
        let ghost keys = self.local_contracts.keys();
        let ghost contracts = self.contracts();
        let mut i: usize = 0;
        while i < n
            invariant
                i <= n,
                code == Some(seen),
                contracts == self.contracts(),
                n == keys.len(),
                keys == self.local_contracts.keys(),
                contracts == self.local_contracts@,
                lists(keys, contracts),
                forall|j: int| 0 <= j < i ==> !is_match(#[trigger] keys[j], seen@),
            decreases n - i,
        {
            let (known_code, contract) = self.local_contracts.entry(i);
            if diff_score(known_code.as_slice(), seen.as_slice()).is_close() {
                proof {
                    lemma_first_in_list(keys, contracts, seen@, i as int);
                    lemma_first_match(contracts, seen@, keys[i as int]);
                }
                let mut qualified: String = contract.0.clone();
                qualified.append(":");
                qualified.append(contract.1.as_str());
                return (
                    Some(qualified),
                    Some(contract.1.clone()),
                    Some(Cow::Borrowed(&contract.2)),
                );
            }
            i = i + 1;
        }
        proof {
            assert forall|key: Seq<u8>| #[trigger] contracts.contains_key(key) implies !is_match(
                key,
                seen@,
            ) by {
                let j = keys.index_of(key);
                assert(keys[j] == key);
            }
        }
        (None, None, None)
    }
}

/// The first key of an increasing listing that matches is the first match.
proof fn lemma_first_in_list(
    keys: Seq<Seq<u8>>,
    contracts: Map<Seq<u8>, LocalContract>,
    code: Seq<u8>,
    i: int,
)
    requires
        lists(keys, contracts),
        0 <= i < keys.len(),
        is_match(keys[i], code),
        forall|j: int| 0 <= j < i ==> !is_match(#[trigger] keys[j], code),
    ensures
        is_first_match(contracts, code, keys[i]),
{
    assert(keys.contains(keys[i]));
    assert forall|other: Seq<u8>| #[trigger]
        contracts.contains_key(other) && is_match(other, code) && other != keys[i] implies precedes(
        keys[i],
        other,
    ) by {
        let j = keys.index_of(other);
        assert(keys[j] == other);
        assert(i < j);
    }
}

/// There is at most one first match.
proof fn lemma_first_match(
    contracts: Map<Seq<u8>, LocalContract>,
    code: Seq<u8>,
    key: Seq<u8>,
)
    requires
        is_first_match(contracts, code, key),
    ensures
        first_match(contracts, code) == Some(contracts[key]),
{
    let chosen = choose|key: Seq<u8>| is_first_match(contracts, code, key);
    if chosen != key {
        law_precedes_asymmetric(key, chosen);
    }
}

/// It does not matter which of two codes is the known one.
pub proof fn law_match_symmetric(a: Seq<u8>, b: Seq<u8>)
    ensures
        is_match(a, b) == is_match(b, a),
{
    lemma_differing_symmetric(a, b, shorter_len(a, b));
}

proof fn lemma_differing_symmetric(a: Seq<u8>, b: Seq<u8>, n: int)
    ensures
        differing(a, b, n) == differing(b, a, n),
    decreases n,
{
    if n > 0 {
        lemma_differing_symmetric(a, b, n - 1);
    }
}

/// A code matches every code that starts with it, itself among them, unless it is empty.
pub proof fn law_prefix_matches(code: Seq<u8>, longer: Seq<u8>)
    requires
        0 < code.len() <= longer.len(),
        longer.take(code.len() as int) == code,
    ensures
        is_match(code, longer),
{
    assert forall|i: int| 0 <= i < code.len() implies code[i] == longer[i] by {
        assert(longer.take(code.len() as int)[i] == longer[i]);
    }
    lemma_none_differing(code, longer, code.len() as int);
}

proof fn lemma_none_differing(a: Seq<u8>, b: Seq<u8>, n: int)
    requires
        forall|i: int| 0 <= i < n ==> a[i] == b[i],
    ensures
        differing(a, b, n) == 0,
    decreases n,
{
    if n > 0 {
        lemma_none_differing(a, b, n - 1);
    }
}

/// An empty code matches nothing.
pub proof fn law_empty_code_unmatched(code: Seq<u8>)
    ensures
        !is_match(code, Seq::empty()),
        !is_match(Seq::empty(), code),
{
}

/// Among finitely many contracts something is found for a code exactly if some known code matches
/// it, and then it is a contract whose code matches.
pub proof fn law_found_iff_matched(contracts: Map<Seq<u8>, LocalContract>, code: Seq<u8>)
    requires
        contracts.dom().finite(),
    ensures
        first_match(contracts, code) is Some <==> exists|key: Seq<u8>| #[trigger]
            contracts.contains_key(key) && is_match(key, code),
        first_match(contracts, code) is Some ==> exists|key: Seq<u8>| #[trigger]
            contracts.contains_key(key) && is_match(key, code) && first_match(contracts, code)
                == Some(contracts[key]),
{
    if exists|key: Seq<u8>| #[trigger] contracts.contains_key(key) && is_match(key, code) {
        let key = choose|key: Seq<u8>| #[trigger]
            contracts.contains_key(key) && is_match(key, code);
        let first = lemma_least_match(contracts.dom(), code, key);
        assert(is_first_match(contracts, code, first));
        lemma_first_match(contracts, code, first);
    }
    if first_match(contracts, code) is Some {
        let key = choose|key: Seq<u8>| is_first_match(contracts, code, key);
        assert(contracts.contains_key(key) && is_match(key, code));
    }
}

/// A finite set of codes one of which matches has a first that matches.
proof fn lemma_least_match(codes: Set<Seq<u8>>, code: Seq<u8>, key: Seq<u8>) -> (first: Seq<u8>)
    requires
        codes.finite(),
        codes.contains(key),
        is_match(key, code),
    ensures
        codes.contains(first),
        is_match(first, code),
        forall|other: Seq<u8>| #[trigger]
            codes.contains(other) && is_match(other, code) && other != first ==> precedes(
                first,
                other,
            ),
    decreases codes.len(),
{
    let rest = codes.remove(key);
    if exists|other: Seq<u8>| #[trigger] rest.contains(other) && is_match(other, code) {
        let other = choose|other: Seq<u8>| #[trigger] rest.contains(other) && is_match(other, code);
        let least = lemma_least_match(rest, code, other);
        law_precedes_total(key, least);
        if precedes(key, least) {
            assert forall|third: Seq<u8>| #[trigger]
                codes.contains(third) && is_match(third, code) && third != key implies precedes(
                key,
                third,
            ) by {
                assert(rest.contains(third));
                if third != least {
                    law_precedes_transitive(key, least, third);
                }
            }
            key
        } else {
            assert forall|third: Seq<u8>| #[trigger]
                codes.contains(third) && is_match(third, code) && third != least implies precedes(
                least,
                third,
            ) by {
                if third != key {
                    assert(rest.contains(third));
                }
            }
            least
        }
    } else {
        assert forall|third: Seq<u8>| #[trigger]
            codes.contains(third) && is_match(third, code) && third != key implies precedes(
            key,
            third,
        ) by {
            assert(rest.contains(third));
        }
        key
    }
}

/// Under each code stands the last contract that has it.
pub proof fn law_last_known_counts(known: Seq<KnownContract>, i: int)
    requires
        0 <= i < known.len(),
        forall|j: int|
            i < j < known.len() ==> (#[trigger] known[j]).runtime_code@ != known[i].runtime_code@,
    ensures
        known_by_code(known).contains_key(known[i].runtime_code@),
        known_by_code(known)[known[i].runtime_code@] == (
            known[i].artifact,
            known[i].name,
            known[i].abi,
        ),
    decreases known.len(),
{
    if i < known.len() - 1 {
        assert(known[known.len() - 1].runtime_code@ != known[i].runtime_code@);
        law_last_known_counts(known.drop_last(), i);
    }
}

/// The codes that are known are those of the contracts of the project.
pub proof fn law_known_codes(known: Seq<KnownContract>, code: Seq<u8>)
    ensures
        known_by_code(known).dom().finite(),
        known_by_code(known).contains_key(code) <==> exists|i: int|
            0 <= i < known.len() && (#[trigger] known[i]).runtime_code@ == code,
    decreases known.len(),
{
    if known.len() > 0 {
        let rest = known.drop_last();
        law_known_codes(rest, code);
        if exists|i: int| 0 <= i < rest.len() && (#[trigger] rest[i]).runtime_code@ == code {
            let i = choose|i: int|
                0 <= i < rest.len() && (#[trigger] rest[i]).runtime_code@ == code;
            assert(known[i].runtime_code@ == code);
        }
        if exists|i: int| 0 <= i < known.len() && (#[trigger] known[i]).runtime_code@ == code {
            let i = choose|i: int|
                0 <= i < known.len() && (#[trigger] known[i]).runtime_code@ == code;
            if i < rest.len() {
                assert(rest[i].runtime_code@ == code);
            }
        }
        assert(known[known.len() - 1] == known.last());
    }
}

/// Every contract of the project is identified by its own code, unless that is empty: something
/// whose code matches is found. It is the contract itself if no other code of the project matches
/// its code and no later contract has the same code.
pub proof fn law_known_code_is_identified(known: Seq<KnownContract>, i: int)
    requires
        0 <= i < known.len(),
        known[i].runtime_code@.len() > 0,
    ensures
        first_match(known_by_code(known), known[i].runtime_code@) is Some,
        (forall|j: int|
            0 <= j < known.len() && (#[trigger] known[j]).runtime_code@ != known[i].runtime_code@
                ==> !is_match(known[j].runtime_code@, known[i].runtime_code@)) && (forall|j: int|
            i < j < known.len() ==> (#[trigger] known[j]).runtime_code@ != known[i].runtime_code@)
            ==> first_match(known_by_code(known), known[i].runtime_code@) == Some(
            (known[i].artifact, known[i].name, known[i].abi),
        ),
{
    let code = known[i].runtime_code@;
    let contracts = known_by_code(known);
    law_known_codes(known, code);
    assert(code.take(code.len() as int) =~= code);
    law_prefix_matches(code, code);
    law_found_iff_matched(contracts, code);
    if (forall|j: int|
        0 <= j < known.len() && (#[trigger] known[j]).runtime_code@ != code ==> !is_match(
            known[j].runtime_code@,
            code,
        )) && (forall|j: int| i < j < known.len() ==> (#[trigger] known[j]).runtime_code@ != code) {
        law_last_known_counts(known, i);
        assert forall|other: Seq<u8>| #[trigger]
            contracts.contains_key(other) && is_match(other, code) && other != code implies precedes(
            code,
            other,
        ) by {
            law_known_codes(known, other);
        }
        lemma_first_match(contracts, code, code);
    }
}

/// The places at which two codes differ, as far as both go.
spec fn differences(a: Seq<u8>, b: Seq<u8>, n: int) -> Set<int> {
    Set::new(|i: int| 0 <= i < n && a[i] != b[i])
}

/// What is counted is every place at which the two codes have different bytes.
pub proof fn law_every_difference_counts(a: Seq<u8>, b: Seq<u8>, n: int)
    ensures
        Set::new(|i: int| 0 <= i < n && a[i] != b[i]).finite(),
        differing(a, b, n) == Set::new(|i: int| 0 <= i < n && a[i] != b[i]).len(),
    decreases n,
{
    let all = differences(a, b, n);
    if n <= 0 {
        assert(all =~= Set::empty());
    } else {
        law_every_difference_counts(a, b, n - 1);
        let before = differences(a, b, n - 1);
        assert(Set::new(|i: int| 0 <= i < n - 1 && a[i] != b[i]) =~= before);
        if a[n - 1] != b[n - 1] {
            assert(all =~= before.insert(n - 1));
            assert(!before.contains(n - 1));
        } else {
            assert(all =~= before);
        }
    }
    assert(Set::new(|i: int| 0 <= i < n && a[i] != b[i]) =~= all);
}

/// Two codes match exactly if there are more than ten times as many places that both have as there
/// are places among these at which they differ.
pub proof fn law_match_means_less_than_a_tenth(a: Seq<u8>, b: Seq<u8>)
    ensures
        ({
            let differences = Set::new(
                |i: int| 0 <= i < a.len() && i < b.len() && a[i] != b[i],
            );
            &&& a.len() <= b.len() ==> (is_match(a, b) <==> 10 * differences.len() < a.len())
            &&& b.len() <= a.len() ==> (is_match(a, b) <==> 10 * differences.len() < b.len())
        }),
{
    let n = shorter_len(a, b);
    law_every_difference_counts(a, b, n);
    assert(Set::new(|i: int| 0 <= i < a.len() && i < b.len() && a[i] != b[i]) =~= Set::new(
        |i: int| 0 <= i < n && a[i] != b[i],
    ));
}

/// Codes that differ wherever both go do not match.
pub proof fn law_different_codes_do_not_match(a: Seq<u8>, b: Seq<u8>)
    requires
        forall|i: int| 0 <= i < a.len() && i < b.len() ==> #[trigger] a[i] != b[i],
    ensures
        !is_match(a, b),
{
    lemma_all_differing(a, b, shorter_len(a, b));
}

proof fn lemma_all_differing(a: Seq<u8>, b: Seq<u8>, n: int)
    requires
        0 <= n <= a.len(),
        n <= b.len(),
        forall|i: int| 0 <= i < a.len() && i < b.len() ==> #[trigger] a[i] != b[i],
    ensures
        differing(a, b, n) == n,
    decreases n,
{
    if n > 0 {
        lemma_all_differing(a, b, n - 1);
        assert(a[n - 1] != b[n - 1]);
    }
}

/// One more byte that differs, wherever it is, raises the count by one.
pub proof fn law_one_more_difference(a: Seq<u8>, b: Seq<u8>, n: int, i: int, byte: u8)
    requires
        0 <= i < n <= a.len(),
        n <= b.len(),
        a[i] == b[i],
        byte != a[i],
    ensures
        differing(a, b.update(i, byte), n) == differing(a, b, n) + 1,
    decreases n,
{
    let changed = b.update(i, byte);
    if i < n - 1 {
        law_one_more_difference(a, b, n - 1, i, byte);
    } else {
        lemma_same_prefix(a, b, changed, n - 1);
    }
}

proof fn lemma_same_prefix(a: Seq<u8>, b: Seq<u8>, c: Seq<u8>, n: int)
    requires
        forall|i: int| 0 <= i < n ==> b[i] == c[i],
    ensures
        differing(a, b, n) == differing(a, c, n),
    decreases n,
{
    if n > 0 {
        lemma_same_prefix(a, b, c, n - 1);
    }
}

/// What is found for a code is known under a code that matches it and comes before all other known
/// codes that match it.
pub proof fn law_found_is_the_first(contracts: Map<Seq<u8>, LocalContract>, code: Seq<u8>)
    requires
        first_match(contracts, code) is Some,
    ensures
        exists|key: Seq<u8>|
            {
                &&& #[trigger] contracts.contains_key(key)
                &&& is_match(key, code)
                &&& first_match(contracts, code) == Some(contracts[key])
                &&& forall|other: Seq<u8>| #[trigger]
                    contracts.contains_key(other) && is_match(other, code) && other != key
                        ==> precedes(key, other)
            },
{
    let key = choose|key: Seq<u8>| is_first_match(contracts, code, key);
    assert(contracts.contains_key(key));
}

/// A known code that matches, and comes before all other known codes that match, is the one that is
/// found.
pub proof fn law_first_is_found(
    contracts: Map<Seq<u8>, LocalContract>,
    code: Seq<u8>,
    key: Seq<u8>,
)
    requires
        contracts.contains_key(key),
        is_match(key, code),
        forall|other: Seq<u8>| #[trigger]
            contracts.contains_key(other) && is_match(other, code) && other != key ==> precedes(
                key,
                other,
            ),
    ensures
        first_match(contracts, code) == Some(contracts[key]),
{
    assert(is_first_match(contracts, code, key));
    lemma_first_match(contracts, code, key);
}

/// A qualified name is the artifact, a colon and the name, and nothing else.
pub proof fn law_qualified_name(artifact: Seq<char>, name: Seq<char>)
    ensures
        ({
            let qualified = qualified_name(artifact, name);
            &&& qualified.len() == artifact.len() + 1 + name.len()
            &&& qualified.take(artifact.len() as int) == artifact
            &&& qualified[artifact.len() as int] == ':'
            &&& qualified.skip(artifact.len() as int + 1) == name
        }),
{
    reveal_strlit(":");
    let qualified = qualified_name(artifact, name);
    assert(qualified.take(artifact.len() as int) =~= artifact);
    assert(qualified.skip(artifact.len() as int + 1) =~= name);
}

} // verus!

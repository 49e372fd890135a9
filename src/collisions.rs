//! Collisions among the first characters of the hashes of a dataset.

use vstd::prelude::*;
use vstd::string::StrSliceExecFns;
use crate::chars::string_of;
use crate::traits::HashGenerator;

verus! {

/// The first `n` characters of `h` (all of it when shorter).
pub open spec fn prefix(h: Seq<char>, n: nat) -> Seq<char> {
    if h.len() <= n {
        h
    } else {
        h.take(n as int)
    }
}

/// How many times `x` occurs in `s`.
pub open spec fn occurrences(s: Seq<Seq<char>>, x: Seq<char>) -> nat
    decreases s.len(),
{
    if s.len() == 0 {
        0
    } else {
        occurrences(s.drop_last(), x) + if s.last() == x { 1nat } else { 0nat }
    }
}

/// The distinct elements of `s` in the order of their first occurrence.
pub open spec fn distinct(s: Seq<Seq<char>>) -> Seq<Seq<char>>
    decreases s.len(),
{
    if s.len() == 0 {
        seq![]
    } else {
        let prev = distinct(s.drop_last());
        if prev.contains(s.last()) {
            prev
        } else {
            prev.push(s.last())
        }
    }
}

proof fn lemma_distinct_contains(s: Seq<Seq<char>>, x: Seq<char>)
    ensures
        distinct(s).contains(x) <==> s.contains(x),
        !s.contains(x) ==> occurrences(s, x) == 0,
        occurrences(s, x) <= s.len(),
    decreases s.len(),
{
    if s.len() > 0 {
        let rest = s.drop_last();
        lemma_distinct_contains(rest, x);
        assert(s.contains(x) <==> (rest.contains(x) || s.last() == x)) by {
            if s.contains(x) {
                let k = choose|k: int| 0 <= k < s.len() && s[k] == x;
                if k < s.len() - 1 {
                    assert(rest[k] == x);
                }
            }
            if rest.contains(x) {
                let k = choose|k: int| 0 <= k < rest.len() && rest[k] == x;
                assert(s[k] == x);
            }
            if s.last() == x {
                assert(s[s.len() - 1] == x);
            }
        }
        let prev = distinct(rest);
        if !prev.contains(s.last()) {
            assert(prev.push(s.last()).contains(x) <==> (prev.contains(x) || s.last() == x)) by {
                if prev.push(s.last()).contains(x) {
                    let k = choose|k: int| 0 <= k < prev.len() + 1 && prev.push(s.last())[k] == x;
                    if k < prev.len() {
                        assert(prev[k] == x);
                    }
                }
                if prev.contains(x) {
                    let k = choose|k: int| 0 <= k < prev.len() && prev[k] == x;
                    assert(prev.push(s.last())[k] == x);
                }
                if s.last() == x {
                    assert(prev.push(s.last())[prev.len() as int] == x);
                }
            }
        }
    }
}

fn same_chars(a: &Vec<char>, b: &Vec<char>) -> (r: bool)
    ensures
        r == (a@ == b@),
{
    if a.len() != b.len() {
        return false;
    }
    let mut i: usize = 0;
    while i < a.len()
        invariant
            a@.len() == b@.len(),
            i <= a@.len(),
            forall|k: int| 0 <= k < i ==> a@[k] == b@[k],
        decreases a@.len() - i,
    {
        if a[i] != b[i] {
            return false;
        }
        i = i + 1;
    }
    assert(a@ =~= b@);
    true
}

fn prefix_of(h: &String, n: usize) -> (r: Vec<char>)
    ensures
        r@ == prefix(h@, n as nat),
{
    let s = h.as_str();
    let len = s.unicode_len();
    let end = if len <= n { len } else { n };
    let mut out: Vec<char> = Vec::new();
    let mut i: usize = 0;
    while i < end
        invariant
            s@ == h@,
            len == h@.len(),
            end <= len,
            i <= end,
            out@ == h@.take(i as int),
        decreases end - i,
    {
        out.push(s.get_char(i));
        i = i + 1;
        proof {
            assert(out@ =~= h@.take(i as int));
        }
    }
    proof {
        if len <= n {
            assert(h@.take(end as int) =~= h@);
        }
    }
    out
}

pub open spec fn prefixes(hashes: Seq<String>, n: nat) -> Seq<Seq<char>> {
    hashes.map_values(|h: String| prefix(h@, n))
}

/// For each distinct prefix of `bit_length` characters among `hashes`, in
/// the order of first occurrence, how many other hashes share it.
pub fn count_collisions(bit_length: usize, hashes: &Vec<String>) -> (r: Vec<(String, usize)>)
    ensures
        r@.len() == distinct(prefixes(hashes@, bit_length as nat)).len(),
        forall|j: int| 0 <= j < r@.len() ==> {
            let d = distinct(prefixes(hashes@, bit_length as nat))[j];
            &&& (#[trigger] r@[j]).0@ == d
            &&& r@[j].1 == occurrences(prefixes(hashes@, bit_length as nat), d) - 1
        },
{
    let ghost all = prefixes(hashes@, bit_length as nat);
    let mut keys: Vec<Vec<char>> = Vec::new();
    let mut counts: Vec<usize> = Vec::new();
    let mut k: usize = 0;
    proof {
        assert(all.take(0) =~= Seq::<Seq<char>>::empty());
    }
    while k < hashes.len()
        invariant
            all == prefixes(hashes@, bit_length as nat),
            k <= hashes@.len(),
            keys@.len() == counts@.len(),
            keys@.len() == distinct(all.take(k as int)).len(),
            forall|j: int| 0 <= j < keys@.len() ==> (#[trigger] keys@[j])@ == distinct(all.take(k as int))[j],
            forall|j: int| 0 <= j < keys@.len() ==> #[trigger] counts@[j] + 1 == occurrences(all.take(k as int), keys@[j]@),
            forall|j: int| 0 <= j < keys@.len() ==> #[trigger] counts@[j] < k,
        decreases hashes@.len() - k,
    {
        let p = prefix_of(&hashes[k], bit_length);
        let ghost before = all.take(k as int);
        let ghost after = all.take(k + 1);
        proof {
            assert(after.drop_last() =~= before);
            assert(after.last() == p@);
            lemma_distinct_contains(before, p@);
        }
        let mut j: usize = 0;
        let mut found = false;
        while j < keys.len() && !found
            invariant
                j <= keys@.len(),
                found ==> j < keys@.len() && keys@[j as int]@ == p@,
                forall|i: int| 0 <= i < j ==> (#[trigger] keys@[i])@ != p@,
            decreases keys@.len() - j + (if found { 0int } else { 1int }),
        {
            if same_chars(&keys[j], &p) {
                found = true;
            } else {
                j = j + 1;
            }
        }
        let ghost old_keys = keys@;
        let ghost old_counts = counts@;
        if found {
            proof {
                assert(distinct(before)[j as int] == p@);
                assert(distinct(before).contains(p@));
                assert(distinct(after) == distinct(before));
                assert forall|i: int| 0 <= i < keys@.len() implies #[trigger] old_counts[i] + 1 + (if i == j { 1int } else { 0int })
                    == occurrences(after, keys@[i]@) by {
                    if i != j {
                        assert(keys@[i]@ == distinct(before)[i]);
                        if keys@[i]@ == p@ {
                            assert(distinct(before).no_duplicates()) by {
                                lemma_distinct_no_dup(before);
                            }
                        }
                    }
                }
            }
            let c = counts[j];
            counts.set(j, c + 1);
        } else {
            proof {
                assert(!distinct(before).contains(p@)) by {
                    if distinct(before).contains(p@) {
                        let i = choose|i: int| 0 <= i < distinct(before).len() && distinct(before)[i] == p@;
                        assert(keys@[i]@ == p@);
                    }
                }
                assert(distinct(after) == distinct(before).push(p@));
                assert forall|i: int| 0 <= i < keys@.len() implies #[trigger] old_counts[i] + 1 == occurrences(after, keys@[i]@) by {
                    assert(keys@[i]@ == distinct(before)[i]);
                }
            }
            keys.push(p);
            counts.push(0);
        }
        k = k + 1;
    }
    proof {
        assert(all.take(k as int) =~= all);
    }
    let mut out: Vec<(String, usize)> = Vec::new();
    let mut j: usize = 0;
    while j < keys.len()
        invariant
            keys@.len() == counts@.len(),
            all == prefixes(hashes@, bit_length as nat),
            keys@.len() == distinct(all).len(),
            forall|i: int| 0 <= i < keys@.len() ==> (#[trigger] keys@[i])@ == distinct(all)[i],
            forall|i: int| 0 <= i < keys@.len() ==> #[trigger] counts@[i] + 1 == occurrences(all, keys@[i]@),
            j <= keys@.len(),
            out@.len() == j,
            forall|i: int| 0 <= i < j ==> {
                &&& (#[trigger] out@[i]).0@ == distinct(all)[i]
                &&& out@[i].1 == occurrences(all, distinct(all)[i]) - 1
            },
        decreases keys@.len() - j,
    {
        out.push((string_of(&keys[j]), counts[j]));
        j = j + 1;
    }
    out
}

proof fn lemma_distinct_no_dup(s: Seq<Seq<char>>)
    ensures
        distinct(s).no_duplicates(),
    decreases s.len(),
{
    if s.len() > 0 {
        lemma_distinct_no_dup(s.drop_last());
    }
}

/// The hashes of the messages of `dataset`, in order.
fn generate_hash_set<G: HashGenerator>(generator: &mut G, dataset: &[&str]) -> (r: Vec<String>)
    ensures
        r@.len() == dataset@.len(),
{
    let mut out: Vec<String> = Vec::new();
    let mut k: usize = 0;
    while k < dataset.len()
        invariant
            k <= dataset@.len(),
            out@.len() == k,
        decreases dataset@.len() - k,
    {
        out.push(generator.generate(dataset[k].as_bytes()));
        k = k + 1;
    }
    out
}

/// Hashes every message of `dataset` and counts, for each distinct prefix
/// of `bit_length` characters of the hashes, how many other hashes share it.
pub fn find_collision_on<G: HashGenerator>(bit_length: usize, generator: &mut G, dataset: &[&str])
    -> (r: Vec<(String, usize)>)
    ensures
        exists|hashes: Seq<String>| {
            &&& hashes.len() == dataset@.len()
            &&& r@.len() == distinct(prefixes(hashes, bit_length as nat)).len()
            &&& forall|j: int| 0 <= j < r@.len() ==> {
                let d = distinct(prefixes(hashes, bit_length as nat))[j];
                &&& (#[trigger] r@[j]).0@ == d
                &&& r@[j].1 == occurrences(prefixes(hashes, bit_length as nat), d) - 1
            }
        },
{
    let hashes = generate_hash_set(generator, dataset);
    count_collisions(bit_length, &hashes)
}

} // verus!

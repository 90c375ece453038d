//! Alphabets: finite lists of symbols, and where a symbol stands in one.

use vstd::prelude::*;

verus! {

/// The first position at which `alphabet` lists `c`.
pub open spec fn first_index(alphabet: Seq<char>, c: char) -> int {
    choose|j: int| is_first_index(alphabet, c, j)
}

/// `alphabet` lists `c` at position `j`, and not before.
pub open spec fn is_first_index(alphabet: Seq<char>, c: char, j: int) -> bool {
    &&& 0 <= j < alphabet.len()
    &&& alphabet[j] == c
    &&& forall|i: int| 0 <= i < j ==> alphabet[i] != c
}

/// A symbol of the alphabet has exactly one first position.
pub proof fn lemma_first_index(alphabet: Seq<char>, c: char, j: int)
    requires
        is_first_index(alphabet, c, j),
    ensures
        first_index(alphabet, c) == j,
{
    let k = first_index(alphabet, c);
    assert(is_first_index(alphabet, c, k));
    if k < j {
        assert(alphabet[k] != c);
    } else if j < k {
        assert(alphabet[j] != c);
    }
}

/// Where nothing is listed twice, every position is a first position.
pub proof fn lemma_first_index_no_duplicates(alphabet: Seq<char>, j: int)
    requires
        alphabet.no_duplicates(),
        0 <= j < alphabet.len(),
    ensures
        first_index(alphabet, alphabet[j]) == j,
{
    lemma_first_index(alphabet, alphabet[j], j);
}

/// The position of `c` in `alphabet`, if it is listed.
pub fn find_symbol(alphabet: &Vec<char>, c: char) -> (r: Option<usize>)
    ensures
        match r {
            Some(j) => is_first_index(alphabet@, c, j as int) && first_index(alphabet@, c) == j,
            None => !alphabet@.contains(c),
        },
{
    let mut j: usize = 0;
    while j < alphabet.len()
        invariant
            j <= alphabet@.len(),
            forall|i: int| 0 <= i < j ==> alphabet@[i] != c,
        decreases alphabet@.len() - j,
    {
        if alphabet[j] == c {
            proof {
                lemma_first_index(alphabet@, c, j as int);
            }
            return Some(j);
        }
        j += 1;
    }
    None
}

/// A listed symbol has a first position.
pub proof fn lemma_first_position_exists(alphabet: Seq<char>, c: char, j: int)
    requires
        0 <= j < alphabet.len(),
        alphabet[j] == c,
    ensures
        is_first_index(alphabet, c, first_index(alphabet, c)),
    decreases j,
{
    if exists|i: int| 0 <= i < j && alphabet[i] == c {
        let i = choose|i: int| 0 <= i < j && alphabet[i] == c;
        lemma_first_position_exists(alphabet, c, i);
    } else {
        assert(is_first_index(alphabet, c, j));
    }
}

/// A listed symbol stands at its first position.
pub proof fn lemma_listed_symbol(alphabet: Seq<char>, c: char)
    requires
        alphabet.contains(c),
    ensures
        is_first_index(alphabet, c, first_index(alphabet, c)),
{
    let j = choose|j: int| 0 <= j < alphabet.len() && alphabet[j] == c;
    lemma_first_position_exists(alphabet, c, j);
}

/// Whether every symbol of `a` is listed in `b`.
pub fn lists_all(a: &Vec<char>, b: &Vec<char>) -> (r: bool)
    ensures
        r == forall|c: char| a@.contains(c) ==> b@.contains(c),
{
    let mut i: usize = 0;
    while i < a.len()
        invariant
            i <= a@.len(),
            forall|t: int| 0 <= t < i ==> b@.contains(#[trigger] a@[t]),
        decreases a@.len() - i,
    {
        if find_symbol(b, a[i]).is_none() {
            assert(a@.contains(a@[i as int]));
            return false;
        }
        i += 1;
    }
    true
}

/// For each position of `a`, the position of the same symbol in `b`; `None`
/// unless the two list the same symbols.
pub fn column_map(a: &Vec<char>, b: &Vec<char>) -> (r: Option<Vec<usize>>)
    ensures
        r is Some <==> forall|c: char| a@.contains(c) <==> b@.contains(c),
        r matches Some(cols) ==> {
            &&& cols@.len() == a@.len()
            &&& forall|t: int| 0 <= t < a@.len() ==> is_first_index(b@, a@[t], #[trigger] cols@[t] as int)
        },
{
    if !lists_all(b, a) {
        return None;
    }
    let mut cols: Vec<usize> = Vec::new();
    let mut i: usize = 0;
    while i < a.len()
        invariant
            i <= a@.len(),
            cols@.len() == i,
            forall|t: int| 0 <= t < i ==> is_first_index(b@, a@[t], #[trigger] cols@[t] as int),
        decreases a@.len() - i,
    {
        match find_symbol(b, a[i]) {
            Some(j) => {
                cols.push(j);
            },
            None => {
                assert(a@.contains(a@[i as int]));
                return None;
            },
        }
        i += 1;
    }
    assert forall|c: char| a@.contains(c) implies b@.contains(c) by {
        let t = choose|t: int| 0 <= t < a@.len() && a@[t] == c;
        assert(is_first_index(b@, a@[t], cols@[t] as int));
    }
    Some(cols)
}

/// The symbols of `s` stand in ascending order, each once.
pub open spec fn ascending(s: Seq<char>) -> bool {
    forall|i: int, j: int| 0 <= i < j < s.len() ==> s[i] < s[j]
}

/// The symbols of `alphabet` in ascending order, each once.
pub fn sorted_symbols(alphabet: &Vec<char>) -> (sorted: Vec<char>)
    ensures
        ascending(sorted@),
        forall|c: char| sorted@.contains(c) <==> alphabet@.contains(c),
{
    let mut sorted: Vec<char> = Vec::new();
    let mut i: usize = 0;
    while i < alphabet.len()
        invariant
            i <= alphabet@.len(),
            ascending(sorted@),
            forall|c: char| sorted@.contains(c) <==> exists|t: int| 0 <= t < i && alphabet@[t] == c,
        decreases alphabet@.len() - i,
    {
        let c = alphabet[i];
        let mut p: usize = 0;
        while p < sorted.len() && sorted[p] < c
            invariant
                p <= sorted@.len(),
                forall|q: int| 0 <= q < p ==> sorted@[q] < c,
            decreases sorted@.len() - p,
        {
            p += 1;
        }
        let ghost before = sorted@;
        if p < sorted.len() && sorted[p] == c {
            assert(before.contains(c));
        } else {
            sorted.insert(p, c);
            proof {
                assert forall|a: int, b: int| 0 <= a < b < sorted@.len() implies sorted@[a] < sorted@[b] by {
                    if b < p {
                        assert(sorted@[a] == before[a] && sorted@[b] == before[b]);
                    } else if b == p {
                        assert(sorted@[a] == before[a]);
                    } else if a < p {
                        assert(sorted@[a] == before[a] && sorted@[b] == before[b - 1]);
                        assert(before[p as int] > c);
                    } else if a == p {
                        assert(sorted@[b] == before[b - 1]);
                        assert(before[p as int] > c);
                    } else {
                        assert(sorted@[a] == before[a - 1] && sorted@[b] == before[b - 1]);
                    }
                }
                assert(sorted@[p as int] == c);
                assert forall|x: char| sorted@.contains(x) implies x == c || before.contains(x) by {
                    let q = choose|q: int| 0 <= q < sorted@.len() && sorted@[q] == x;
                    if q < p {
                        assert(before[q] == x);
                    } else if q > p {
                        assert(before[q - 1] == x);
                    }
                }
                assert forall|x: char| before.contains(x) implies sorted@.contains(x) by {
                    let q = choose|q: int| 0 <= q < before.len() && before[q] == x;
                    if q < p {
                        assert(sorted@[q] == x);
                    } else {
                        assert(sorted@[q + 1] == x);
                    }
                }
            }
        }
        proof {
            assert forall|x: char| sorted@.contains(x) <==> exists|t: int| 0 <= t < i + 1 && alphabet@[t] == x by {
                if x == c {
                    assert(alphabet@[i as int] == x);
                }
                if before.contains(x) {
                    let t = choose|t: int| 0 <= t < i && alphabet@[t] == x;
                    assert(0 <= t < i + 1 && alphabet@[t] == x);
                }
                if exists|t: int| 0 <= t < i + 1 && alphabet@[t] == x {
                    let t = choose|t: int| 0 <= t < i + 1 && alphabet@[t] == x;
                    if t < i {
                        assert(before.contains(x));
                    }
                }
            }
        }
        i += 1;
    }
    sorted
}

} // verus!

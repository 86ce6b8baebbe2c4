//! A set of text keys kept in lexicographic order, for membership tests in
//! logarithmic time.
use vstd::prelude::*;

verus! {

/// Lexicographic order on texts, by character code.
pub open spec fn lex_lt(a: Seq<char>, b: Seq<char>) -> bool
    decreases a.len(),
{
    if a.len() == 0 {
        b.len() > 0
    } else if b.len() == 0 {
        false
    } else if a[0] != b[0] {
        a[0] < b[0]
    } else {
        lex_lt(a.drop_first(), b.drop_first())
    }
}

pub proof fn lemma_lex_irreflexive(a: Seq<char>)
    ensures
        !lex_lt(a, a),
    decreases a.len(),
{
    if a.len() > 0 {
        lemma_lex_irreflexive(a.drop_first());
    }
}

pub proof fn lemma_lex_transitive(a: Seq<char>, b: Seq<char>, c: Seq<char>)
    requires
        lex_lt(a, b),
        lex_lt(b, c),
    ensures
        lex_lt(a, c),
    decreases a.len(),
{
    if a.len() > 0 && b.len() > 0 && c.len() > 0 && a[0] == b[0] && b[0] == c[0] {
        lemma_lex_transitive(a.drop_first(), b.drop_first(), c.drop_first());
    }
}

pub proof fn lemma_lex_total(a: Seq<char>, b: Seq<char>)
    requires
        a != b,
    ensures
        lex_lt(a, b) || lex_lt(b, a),
    decreases a.len(),
{
    if a.len() > 0 && b.len() > 0 && a[0] == b[0] {
        if a.drop_first() == b.drop_first() {
            assert(a =~= seq![a[0]] + a.drop_first());
            assert(b =~= seq![b[0]] + b.drop_first());
        }
        lemma_lex_total(a.drop_first(), b.drop_first());
    } else if a.len() > 0 && b.len() > 0 {
    } else if a.len() == 0 && b.len() == 0 {
        assert(a =~= b);
    }
}

/// A common prefix does not decide the order.
proof fn lemma_lex_skip(a: Seq<char>, b: Seq<char>, i: int)
    requires
        0 <= i <= a.len(),
        i <= b.len(),
        a.take(i) == b.take(i),
    ensures
        lex_lt(a, b) == lex_lt(a.skip(i), b.skip(i)),
    decreases i,
{
    if i > 0 {
        assert(a[0] == a.take(i)[0]);
        assert(b[0] == b.take(i)[0]);
        assert(a.drop_first().take(i - 1) =~= a.take(i).drop_first());
        assert(b.drop_first().take(i - 1) =~= b.take(i).drop_first());
        lemma_lex_skip(a.drop_first(), b.drop_first(), i - 1);
        assert(a.drop_first().skip(i - 1) =~= a.skip(i));
        assert(b.drop_first().skip(i - 1) =~= b.skip(i));
    } else {
        assert(a.skip(0) =~= a);
        assert(b.skip(0) =~= b);
    }
}

/// How two texts compare.
#[derive(Clone, Copy, Debug, PartialEq, Eq, Structural)]
pub enum KeyOrder {
    Less,
    Equal,
    Greater,
}

/// Compares two texts lexicographically.
pub fn compare(a: &Vec<char>, b: &Vec<char>) -> (r: KeyOrder)
    ensures
        r == KeyOrder::Less <==> lex_lt(a@, b@),
        r == KeyOrder::Equal <==> a@ == b@,
        r == KeyOrder::Greater <==> lex_lt(b@, a@),
{
    let mut i: usize = 0;
    while i < a.len() && i < b.len() && a[i] == b[i]
        invariant
            i <= a@.len(),
            i <= b@.len(),
            a@.take(i as int) == b@.take(i as int),
        decreases a@.len() - i,
    {
        proof {
            assert(a@.take(i + 1) =~= a@.take(i as int).push(a@[i as int]));
            assert(b@.take(i + 1) =~= b@.take(i as int).push(b@[i as int]));
        }
        i = i + 1;
    }
    proof {
        lemma_lex_skip(a@, b@, i as int);
        lemma_lex_skip(b@, a@, i as int);
        lemma_lex_irreflexive(a@);
        lemma_lex_irreflexive(b@);
        if a@ != b@ {
            lemma_lex_total(a@, b@);
        }
        if lex_lt(a@, b@) && lex_lt(b@, a@) {
            lemma_lex_transitive(a@, b@, a@);
        }
    }
    if i < a.len() && i < b.len() {
        proof {
            let x = a@.skip(i as int);
            let y = b@.skip(i as int);
            assert(x[0] == a@[i as int]);
            assert(y[0] == b@[i as int]);
        }
        if a[i] < b[i] {
            KeyOrder::Less
        } else {
            KeyOrder::Greater
        }
    } else if i < b.len() {
        proof {
            assert(a@.skip(i as int).len() == 0);
        }
        KeyOrder::Less
    } else if i < a.len() {
        proof {
            assert(b@.skip(i as int).len() == 0);
        }
        KeyOrder::Greater
    } else {
        proof {
            assert(a@ =~= a@.take(i as int));
            assert(b@ =~= b@.take(i as int));
        }
        KeyOrder::Equal
    }
}

/// Texts in strictly increasing order.
#[derive(Debug)]
pub struct KeySet {
    pub keys: Vec<Vec<char>>,
}

/// The texts of a list of character vectors.
pub open spec fn key_texts(v: Seq<Vec<char>>) -> Seq<Seq<char>> {
    v.map_values(|k: Vec<char>| k@)
}

impl KeySet {
    pub open spec fn sorted(&self) -> bool {
        forall|i: int, j: int|
            0 <= i < j < self.keys@.len() ==> lex_lt(
                #[trigger] key_texts(self.keys@)[i],
                #[trigger] key_texts(self.keys@)[j],
            )
    }

    /// The keys held.
    pub open spec fn view(&self) -> Set<Seq<char>> {
        key_texts(self.keys@).to_set()
    }

    pub fn new() -> (r: KeySet)
        ensures
            r.sorted(),
            r.view() == Set::<Seq<char>>::empty(),
            r.keys@.len() == 0,
    {
        let r = KeySet { keys: Vec::new() };
        assert(r.view() =~= Set::<Seq<char>>::empty());
        r
    }

    /// Where `key` is or would go.
    fn search(&self, key: &Vec<char>) -> (r: (usize, bool))
        requires
            self.sorted(),
        ensures
            r.0 <= self.keys@.len(),
            r.1 ==> r.0 < self.keys@.len() && key_texts(self.keys@)[r.0 as int] == key@,
            !r.1 ==> (forall|i: int| 0 <= i < r.0 ==> lex_lt(#[trigger] key_texts(self.keys@)[i], key@))
                && (forall|i: int| r.0 <= i < self.keys@.len() ==> lex_lt(key@, #[trigger] key_texts(self.keys@)[i])),
    {
        let ghost ks = key_texts(self.keys@);
        let mut lo: usize = 0;
        let mut hi: usize = self.keys.len();
        while lo < hi
            invariant
                ks == key_texts(self.keys@),
                self.sorted(),
                lo <= hi <= self.keys@.len(),
                forall|i: int| 0 <= i < lo ==> lex_lt(#[trigger] ks[i], key@),
                forall|i: int| hi <= i < self.keys@.len() ==> lex_lt(key@, #[trigger] ks[i]),
            decreases hi - lo,
        {
            let mid = lo + (hi - lo) / 2;
            match compare(&self.keys[mid], key) {
                KeyOrder::Equal => {
                    return (mid, true);
                },
                KeyOrder::Less => {
                    proof {
                        assert forall|i: int| 0 <= i < mid + 1 implies lex_lt(#[trigger] ks[i], key@) by {
                            if i < mid {
                                lemma_lex_transitive(ks[i], ks[mid as int], key@);
                            }
                        }
                    }
                    lo = mid + 1;
                },
                KeyOrder::Greater => {
                    proof {
                        assert forall|i: int| mid <= i < self.keys@.len() implies lex_lt(key@, #[trigger] ks[i]) by {
                            if i > mid {
                                lemma_lex_transitive(key@, ks[mid as int], ks[i]);
                            }
                        }
                    }
                    hi = mid;
                },
            }
        }
        (lo, false)
    }

    /// Whether `key` is held.
    pub fn contains(&self, key: &Vec<char>) -> (r: bool)
        requires
            self.sorted(),
        ensures
            r == self.view().contains(key@),
    {
        let (i, found) = self.search(key);
        proof {
            let ks = key_texts(self.keys@);
            if found {
                assert(ks.contains(key@));
            } else if ks.contains(key@) {
                let j = choose|j: int| 0 <= j < ks.len() && ks[j] == key@;
                lemma_lex_irreflexive(key@);
                if j < i {
                    assert(lex_lt(ks[j], key@));
                } else {
                    assert(lex_lt(key@, ks[j]));
                }
            }
        }
        found
    }

    /// Adds `key` unless it is held; returns whether it was added.
    pub fn insert(&mut self, key: Vec<char>) -> (added: bool)
        requires
            old(self).sorted(),
        ensures
            final(self).sorted(),
            added == !old(self).view().contains(key@),
            final(self).view() == old(self).view().insert(key@),
            final(self).keys@.len() == old(self).keys@.len() + if added {
                1int
            } else {
                0int
            },
    {
        let ghost ks = key_texts(self.keys@);
        let (i, found) = self.search(&key);
        if found {
            proof {
                assert(ks.contains(key@));
                assert(self.view().insert(key@) =~= self.view());
            }
            return false;
        }
        let ghost k = key@;
        proof {
            lemma_lex_irreflexive(k);
            if ks.contains(k) {
                let j = choose|j: int| 0 <= j < ks.len() && ks[j] == k;
                if j < i {
                    assert(lex_lt(ks[j], k));
                } else {
                    assert(lex_lt(k, ks[j]));
                }
            }
        }
        self.keys.insert(i, key);
        proof {
            let ns = key_texts(self.keys@);
            assert(ns =~= ks.insert(i as int, k));
            assert forall|a: int, b: int| 0 <= a < b < ns.len() implies lex_lt(#[trigger] ns[a], #[trigger] ns[b]) by {
                if a < i && b < i {
                    assert(ns[a] == ks[a] && ns[b] == ks[b]);
                } else if a < i && b == i {
                    assert(ns[a] == ks[a]);
                } else if a < i && b > i {
                    assert(ns[a] == ks[a] && ns[b] == ks[b - 1]);
                    lemma_lex_transitive(ks[a], k, ks[b - 1]);
                } else if a == i {
                    assert(ns[b] == ks[b - 1]);
                } else {
                    assert(ns[a] == ks[a - 1] && ns[b] == ks[b - 1]);
                }
            }
            assert forall|x: Seq<char>| #[trigger] ns.to_set().contains(x) == ks.to_set().insert(k).contains(x) by {
                if ns.contains(x) {
                    let j = choose|j: int| 0 <= j < ns.len() && ns[j] == x;
                    if j < i {
                        assert(ks[j] == x);
                    } else if j > i {
                        assert(ks[j - 1] == x);
                    }
                }
                if ks.contains(x) {
                    let j = choose|j: int| 0 <= j < ks.len() && ks[j] == x;
                    if j < i {
                        assert(ns[j] == x);
                    } else {
                        assert(ns[j + 1] == x);
                    }
                }
                if x == k {
                    assert(ns[i as int] == k);
                }
            }
            assert(self.view() =~= old(self).view().insert(k));
        }
        true
    }
}

} // verus!

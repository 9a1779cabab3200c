use vstd::prelude::*;

use crate::tokenizer::{term_runs, terms_of};

verus! {

/// What `str::to_lowercase` returns for a string.
pub uninterp spec fn lower_of(s: Seq<char>) -> Seq<char>;

/// Relies on `str::to_lowercase`: the lowercase form depends on the characters alone.
#[verifier::external_body]
fn to_lowercase(s: &str) -> (r: String)
    ensures
        r@ == lower_of(s@),
{
    s.to_lowercase()
}

/// The normalized (lowercase) form of each term.
pub open spec fn normalized(ts: Seq<Seq<char>>) -> Seq<Seq<char>> {
    ts.map_values(|t: Seq<char>| lower_of(t))
}

/// The distinct elements of `ks`, in order of first occurrence.
pub open spec fn first_occurrences(ks: Seq<Seq<char>>) -> Seq<Seq<char>>
    decreases ks.len(),
{
    if ks.len() == 0 {
        seq![]
    } else {
        let prev = first_occurrences(ks.drop_last());
        if prev.contains(ks.last()) {
            prev
        } else {
            prev.push(ks.last())
        }
    }
}

/// Each key paired with its position.
pub open spec fn numbered(ks: Seq<Seq<char>>) -> Seq<(Seq<char>, nat)> {
    Seq::new(ks.len(), |i: int| (ks[i], i as nat))
}

/// The vocabulary built from `text`: one entry per distinct normalized term,
/// numbered from 0 in order of first occurrence.
pub open spec fn vocabulary_of(text: Seq<char>) -> Seq<(Seq<char>, nat)> {
    numbered(first_occurrences(normalized(terms_of(text))))
}

/// The keys of a sequence of entries.
pub open spec fn keys_of(e: Seq<(Seq<char>, nat)>) -> Seq<Seq<char>> {
    e.map_values(|p: (Seq<char>, nat)| p.0)
}

/// No key appears in two entries.
pub open spec fn distinct_keys(e: Seq<(Seq<char>, nat)>) -> bool {
    forall|i: int, j: int| 0 <= i < j < e.len() ==> e[i].0 != e[j].0
}

/// The index that `e` gives `k`, if `k` is one of its keys.
pub open spec fn lookup(e: Seq<(Seq<char>, nat)>, k: Seq<char>) -> Option<nat> {
    if exists|i: int| 0 <= i < e.len() && e[i].0 == k {
        Some(e[choose|i: int| 0 <= i < e.len() && e[i].0 == k].1)
    } else {
        None
    }
}

/// Building from the same text always gives the same vocabulary, term by
/// term and index by index.
pub proof fn lemma_build_deterministic(s: Seq<char>, t: Seq<char>)
    requires
        s == t,
    ensures
        vocabulary_of(s) == vocabulary_of(t),
{
}

/// A vocabulary built from text with `k` distinct normalized terms has `k`
/// entries, one per distinct normalized term, and its indices are exactly
/// `0 .. k - 1`, each used once.
pub proof fn lemma_build_dense(text: Seq<char>)
    ensures
        vocabulary_of(text).len() == normalized(terms_of(text)).to_set().len(),
        distinct_keys(vocabulary_of(text)),
        forall|k: Seq<char>|
            keys_of(vocabulary_of(text)).contains(k) <==> normalized(terms_of(text)).contains(k),
        forall|i: int| 0 <= i < vocabulary_of(text).len() ==> #[trigger] vocabulary_of(text)[i].1 == i,
{
    let ks = normalized(terms_of(text));
    let fo = first_occurrences(ks);
    lemma_first_occurrences_distinct(ks);
    fo.unique_seq_to_set();
    assert(fo.to_set() =~= ks.to_set());
    assert(keys_of(vocabulary_of(text)) =~= fo);
}

/// `e` with `k` given index `v`: the entry of `k` changes in place, or a new
/// entry comes last.
pub open spec fn assigned(e: Seq<(Seq<char>, nat)>, k: Seq<char>, v: nat) -> Seq<(Seq<char>, nat)> {
    if exists|i: int| 0 <= i < e.len() && e[i].0 == k {
        e.update(choose|i: int| 0 <= i < e.len() && e[i].0 == k, (k, v))
    } else {
        e.push((k, v))
    }
}

/// A mapping from normalized term to token index, kept in insertion order.
pub struct Vocab {
    terms: Vec<String>,
    indices: Vec<usize>,
}

impl View for Vocab {
    type V = Seq<(Seq<char>, nat)>;

    closed spec fn view(&self) -> Seq<(Seq<char>, nat)> {
        Seq::new(self.terms.len() as nat, |i: int| (self.terms[i]@, self.indices[i] as nat))
    }
}

proof fn lemma_push_contains(ks: Seq<Seq<char>>, x: Seq<char>, k: Seq<char>)
    ensures
        ks.push(x).contains(k) <==> ks.contains(k) || k == x,
{
    if ks.contains(k) {
        let i = choose|i: int| 0 <= i < ks.len() && ks[i] == k;
        assert(ks.push(x)[i] == k);
    }
    if k == x {
        assert(ks.push(x)[ks.len() as int] == k);
    }
    if ks.push(x).contains(k) {
        let i = choose|i: int| 0 <= i < ks.len() + 1 && ks.push(x)[i] == k;
        if i < ks.len() {
            assert(ks[i] == k);
        }
    }
}

proof fn lemma_first_occurrences_distinct(ks: Seq<Seq<char>>)
    ensures
        first_occurrences(ks).no_duplicates(),
        forall|k: Seq<char>| first_occurrences(ks).contains(k) <==> ks.contains(k),
    decreases ks.len(),
{
    if ks.len() > 0 {
        let prev = first_occurrences(ks.drop_last());
        lemma_first_occurrences_distinct(ks.drop_last());
        assert(ks.drop_last().push(ks.last()) == ks);
        assert forall|k: Seq<char>| #[trigger] first_occurrences(ks).contains(k) <==> ks.contains(k) by {
            lemma_push_contains(ks.drop_last(), ks.last(), k);
            lemma_push_contains(prev, ks.last(), k);
        }
    }
}

impl Vocab {
    /// The two columns line up and no key has two entries.
    pub closed spec fn wf(&self) -> bool {
        &&& self.terms.len() == self.indices.len()
        &&& distinct_keys(self@)
    }

    /// A well-formed vocabulary gives each key one entry, and each index
    /// fits in `usize`.
    pub proof fn lemma_wf_view(&self)
        requires
            self.wf(),
        ensures
            distinct_keys(self@),
            forall|i: int| 0 <= i < self@.len() ==> (#[trigger] self@[i]).1 <= usize::MAX,
    {
    }

    /// Splits `text` into terms: the maximal runs of alphanumeric characters
    /// and apostrophes, in order, with case kept.
    pub fn tokenize(text: String) -> (r: Vec<String>)
        ensures
            r@.map_values(|t: String| t@) == terms_of(text@),
    {
        term_runs(text.as_str())
    }

    /// The number of entries.
    pub fn size(&self) -> (r: usize)
        requires
            self.wf(),
        ensures
            r == self@.len(),
    {
        self.terms.len()
    }

    /// The vocabulary with no entries.
    pub(crate) fn empty() -> (r: Vocab)
        ensures
            r.wf(),
            r@ == Seq::<(Seq<char>, nat)>::empty(),
    {
        let r = Vocab { terms: Vec::new(), indices: Vec::new() };
        assert(r@ =~= Seq::<(Seq<char>, nat)>::empty());
        r
    }

    /// Gives `k` the index `v`, replacing the index it had.
    pub(crate) fn assign(&mut self, k: String, v: usize)
        requires
            old(self).wf(),
        ensures
            final(self).wf(),
            final(self)@ == assigned(old(self)@, k@, v as nat),
    {
        let ghost e = self@;
        match self.position(&k) {
            Some(i) => {
                self.indices.set(i, v);
                proof {
                    let j = choose|j: int| 0 <= j < e.len() && e[j].0 == k@;
                    assert(j == i);
                    assert(self@ =~= e.update(i as int, (k@, v as nat)));
                }
            },
            None => {
                self.terms.push(k);
                self.indices.push(v);
                assert(self@ =~= e.push((k@, v as nat)));
            },
        }
    }

    /// The index of `term`, if it is a key.
    pub fn get(&self, term: &str) -> (r: Option<usize>)
        requires
            self.wf(),
        ensures
            match r {
                Some(v) => lookup(self@, term@) == Some(v as nat),
                None => lookup(self@, term@) is None,
            },
    {
        let k = String::from_str(term);
        match self.position(&k) {
            Some(i) => {
                proof {
                    let j = choose|j: int| 0 <= j < self@.len() && self@[j].0 == term@;
                    assert(j == i);
                }
                Some(self.indices[i])
            },
            None => None,
        }
    }

    /// The entries as (term, index) pairs, in insertion order.
    pub fn entries(&self) -> (r: Vec<(String, usize)>)
        requires
            self.wf(),
        ensures
            r@.len() == self@.len(),
            forall|i: int| 0 <= i < r@.len() ==> (#[trigger] r@[i]).0@ == self@[i].0 && r@[i].1 == self@[i].1,
    {
        let mut r: Vec<(String, usize)> = Vec::new();
        let mut i: usize = 0;
        while i < self.terms.len()
            invariant
                self.wf(),
                i <= self.terms.len(),
                r@.len() == i,
                forall|j: int| 0 <= j < i ==> (#[trigger] r@[j]).0@ == self@[j].0 && r@[j].1 == self@[j].1,
            decreases self.terms.len() - i,
        {
            r.push((self.terms[i].clone(), self.indices[i]));
            i = i + 1;
        }
        r
    }

    /// The position of the entry whose key is `k`, if there is one.
    fn position(&self, k: &String) -> (r: Option<usize>)
        requires
            self.wf(),
        ensures
            match r {
                Some(i) => i < self@.len() && self@[i as int].0 == k@,
                None => forall|i: int| 0 <= i < self@.len() ==> self@[i].0 != k@,
            },
    {
        let mut i: usize = 0;
        while i < self.terms.len()
            invariant
                self.wf(),
                i <= self.terms.len(),
                forall|j: int| 0 <= j < i ==> self@[j].0 != k@,
            decreases self.terms.len() - i,
        {
            assert(self@[i as int].0 == self.terms[i as int]@);
            if self.terms[i] == *k {
                return Some(i);
            }
            i = i + 1;
        }
        None
    }

    /// Numbers the distinct elements of `keys` from 0, in order of first
    /// occurrence; a repeated key keeps the index it got first.
    pub fn from_keys(keys: &Vec<String>) -> (r: Vocab)
        ensures
            r.wf(),
            r@ == numbered(first_occurrences(keys@.map_values(|k: String| k@))),
    {
        let ghost ks = keys@.map_values(|k: String| k@);
        let mut v = Vocab::empty();
        assert(numbered(first_occurrences(ks.take(0))) =~= v@);
        let mut n: usize = 0;
        while n < keys.len()
            invariant
                n <= keys.len(),
                ks == keys@.map_values(|k: String| k@),
                v.wf(),
                v@ == numbered(first_occurrences(ks.take(n as int))),
            decreases keys.len() - n,
        {
            let key = &keys[n];
            proof {
                let pre = ks.take(n as int);
                assert(ks.take(n + 1).drop_last() == pre);
                assert(ks.take(n + 1).last() == key@);
                lemma_first_occurrences_distinct(pre);
            }
            match v.position(key) {
                Some(j) => {
                    let ghost fo = first_occurrences(ks.take(n as int));
                    assert(fo[j as int] == key@);
                    assert(first_occurrences(ks.take(n + 1)) == fo);
                },
                None => {
                    let ghost old_view = v@;
                    let next = v.terms.len();
                    v.terms.push(key.clone());
                    v.indices.push(next);
                    proof {
                        let fo = first_occurrences(ks.take(n as int));
                        assert(!fo.contains(key@)) by {
                            if fo.contains(key@) {
                                let j = choose|j: int| 0 <= j < fo.len() && fo[j] == key@;
                                assert(old_view[j].0 == fo[j]);
                            }
                        }
                        assert(first_occurrences(ks.take(n + 1)) == fo.push(key@));
                        assert(old_view.len() == fo.len());
                        assert(v@ =~= numbered(fo.push(key@))) by {
                            assert forall|j: int| 0 <= j < v@.len() implies v@[j] == numbered(fo.push(key@))[j] by {
                                if j < fo.len() {
                                    assert(v@[j] == old_view[j]);
                                }
                            }
                        }
                    }
                },
            }
            n = n + 1;
        }
        assert(ks.take(ks.len() as int) == ks);
        v
    }

    /// Builds the vocabulary of `text`: each term is lowercased, and each
    /// lowercase form not seen before gets the next index, starting at 0.
    pub fn build(text: &str) -> (r: Vocab)
        ensures
            r.wf(),
            r@ == vocabulary_of(text@),
    {
        let tokens = term_runs(text);
        let ghost ts = terms_of(text@);
        let mut keys: Vec<String> = Vec::new();
        let mut n: usize = 0;
        while n < tokens.len()
            invariant
                n <= tokens.len(),
                tokens@.map_values(|t: String| t@) == ts,
                keys@.map_values(|k: String| k@) == normalized(ts.take(n as int)),
            decreases tokens.len() - n,
        {
            let key = to_lowercase(tokens[n].as_str());
            let ghost before = keys@;
            assert(ts[n as int] == tokens@[n as int]@);
            assert(before.map_values(|k: String| k@).len() == n);
            keys.push(key);
            n = n + 1;
            assert forall|j: int| 0 <= j < n implies #[trigger] keys@[j]@ == normalized(ts.take(n as int))[j] by {
                if j < n - 1 {
                    assert(keys@[j] == before[j]);
                    assert(before.map_values(|k: String| k@)[j] == before[j]@);
                }
            }
            assert(keys@.map_values(|k: String| k@) =~= normalized(ts.take(n as int)));
        }
        assert(ts.take(ts.len() as int) == ts);
        Vocab::from_keys(&keys)
    }
}

} // verus!

use vstd::prelude::*;

verus! {

/// What `char::is_alphanumeric` answers for a character: membership in the
/// Unicode `Alphabetic` or `Numeric` property.
pub uninterp spec fn alphanumeric(c: char) -> bool;

/// Relies on `char::is_alphanumeric`, whose answer depends on the character alone.
#[verifier::external_body]
fn is_alphanumeric(c: char) -> (r: bool)
    ensures
        r == alphanumeric(c),
{
    c.is_alphanumeric()
}

/// Relies on `String::push`: the character is appended at the end.
#[verifier::external_body]
pub(crate) fn push_char(s: &mut String, c: char)
    ensures
        final(s)@ == old(s)@.push(c),
{
    s.push(c)
}

/// A character that belongs inside a term: alphanumeric, or the apostrophe.
pub open spec fn term_char(c: char) -> bool {
    alphanumeric(c) || c == '\''
}

/// Scans `s` from the left, keeping the characters whose mark in `keep` is
/// set: the runs already closed, and the run still open at the end of `s`.
pub open spec fn scan(s: Seq<char>, keep: Seq<bool>) -> (Seq<Seq<char>>, Seq<char>)
    decreases s.len(),
{
    if s.len() == 0 {
        (seq![], seq![])
    } else {
        let (done, open) = scan(s.drop_last(), keep);
        if keep[s.len() - 1] {
            (done, open.push(s.last()))
        } else if open.len() > 0 {
            (done.push(open), seq![])
        } else {
            (done, seq![])
        }
    }
}

/// The maximal runs of kept characters of `s`, from left to right.
pub open spec fn runs_of(s: Seq<char>, keep: Seq<bool>) -> Seq<Seq<char>> {
    let (done, open) = scan(s, keep);
    if open.len() > 0 {
        done.push(open)
    } else {
        done
    }
}

/// Marks each character of `s` that belongs inside a term.
pub open spec fn term_marks(s: Seq<char>) -> Seq<bool> {
    s.map_values(|c: char| term_char(c))
}

/// The maximal runs of term characters of `s`, from left to right.
pub open spec fn terms_of(s: Seq<char>) -> Seq<Seq<char>> {
    runs_of(s, term_marks(s))
}

/// Every term that `s` yields is non-empty and made of term characters only.
pub open spec fn well_formed_terms(ts: Seq<Seq<char>>) -> bool {
    forall|i: int| 0 <= i < ts.len() ==> {
        &&& (#[trigger] ts[i]).len() > 0
        &&& forall|j: int| 0 <= j < ts[i].len() ==> term_char(#[trigger] ts[i][j])
    }
}

proof fn lemma_scan_well_formed(s: Seq<char>, keep: Seq<bool>)
    requires
        s.len() <= keep.len(),
        forall|i: int| 0 <= i < s.len() ==> keep[i] == term_char(#[trigger] s[i]),
    ensures
        well_formed_terms(scan(s, keep).0),
        forall|j: int| 0 <= j < scan(s, keep).1.len() ==> term_char(#[trigger] scan(s, keep).1[j]),
    decreases s.len(),
{
    if s.len() > 0 {
        assert(keep[s.len() - 1] == term_char(s[s.len() - 1]));
        lemma_scan_well_formed(s.drop_last(), keep);
    }
}

/// The same text always splits into the same terms.
pub proof fn lemma_terms_deterministic(s: Seq<char>, t: Seq<char>)
    requires
        s == t,
    ensures
        terms_of(s) == terms_of(t),
{
}

/// Empty text has no terms, and no term is ever empty; every character of a
/// term is alphanumeric or an apostrophe.
pub proof fn lemma_terms_total(s: Seq<char>)
    ensures
        terms_of(Seq::<char>::empty()) == Seq::<Seq<char>>::empty(),
        well_formed_terms(terms_of(s)),
{
    lemma_scan_well_formed(s, term_marks(s));
    assert(terms_of(Seq::<char>::empty()) =~= Seq::<Seq<char>>::empty());
}

/// Whether `c` belongs inside a term.
fn is_term_char(c: char) -> (r: bool)
    ensures
        r == term_char(c),
{
    c == '\'' || is_alphanumeric(c)
}

/// Splits `text` into its maximal runs of characters marked in `keep`, in
/// order; `keep` holds one mark per character.
pub fn split_runs(text: &str, keep: &Vec<bool>) -> (r: Vec<String>)
    requires
        keep@.len() == text@.len(),
    ensures
        r@.map_values(|t: String| t@) == runs_of(text@, keep@),
{
    let mut done: Vec<String> = Vec::new();
    let mut open = String::new();
    let mut pos: usize = 0;
    for c in it: text.chars()
        invariant
            it.seq() == text@,
            keep@.len() == text@.len(),
            pos == it.index(),
            done@.map_values(|t: String| t@) == scan(it.seq().take(it.index() as int), keep@).0,
            open@ == scan(it.seq().take(it.index() as int), keep@).1,
    {
        let ghost s = it.seq().take(it.index() + 1);
        assert(s.drop_last() == it.seq().take(it.index() as int));
        assert(s.last() == c);
        assert(pos < keep.len());
        if keep[pos] {
            push_char(&mut open, c);
        } else if !open.as_str().is_empty() {
            done.push(open);
            open = String::new();
        }
        pos = pos + 1;
    }
    assert(text@.take(text@.len() as int) == text@);
    if !open.as_str().is_empty() {
        done.push(open);
    }
    done
}

/// Splits `text` into its maximal runs of term characters, in order.
pub(crate) fn term_runs(text: &str) -> (r: Vec<String>)
    ensures
        r@.map_values(|t: String| t@) == terms_of(text@),
{
    let mut keep: Vec<bool> = Vec::new();
    for c in it: text.chars()
        invariant
            it.seq() == text@,
            keep@ == term_marks(it.seq().take(it.index() as int)),
    {
        keep.push(is_term_char(c));
        assert(keep@ =~= term_marks(it.seq().take(it.index() + 1)));
    }
    assert(text@.take(text@.len() as int) == text@);
    split_runs(text, &keep)
}

} // verus!

use vstd::prelude::*;

use crate::tokenizer::push_char;
use crate::vocab::{assigned, distinct_keys, Vocab};

verus! {

/// Why a vocabulary could not be had.
#[derive(Clone, Copy, Debug, PartialEq, Eq, Structural)]
pub enum VocabError {
    /// The text to read could not be opened or read.
    SourceUnavailable,
    /// A line of a saved vocabulary is not `term<TAB>index`.
    MalformedRecord,
}

/// A decimal digit character.
pub open spec fn is_digit(c: char) -> bool {
    '0' <= c && c <= '9'
}

/// The character of the decimal digit `d`.
pub open spec fn digit_char(d: nat) -> char {
    ((d + 48) as u8) as char
}

/// The decimal digits of `n`, most significant first, with no leading zero.
pub open spec fn decimal(n: nat) -> Seq<char>
    decreases n,
{
    if n < 10 {
        seq![digit_char(n)]
    } else {
        decimal(n / 10).push(digit_char(n % 10))
    }
}

/// The value of a string of decimal digits.
pub open spec fn digits_value(s: Seq<char>) -> nat
    decreases s.len(),
{
    if s.len() == 0 {
        0
    } else {
        digits_value(s.drop_last()) * 10 + (s.last() as int - 48) as nat
    }
}

/// `s` without the one plus sign that may lead it.
pub open spec fn unsigned_part(s: Seq<char>) -> Seq<char> {
    if s.len() > 0 && s[0] == '+' {
        s.drop_first()
    } else {
        s
    }
}

/// The index that `s` spells: an optional `+`, then one or more decimal
/// digits, with a value that fits in `usize`.
pub open spec fn index_value(s: Seq<char>) -> Option<nat> {
    let d = unsigned_part(s);
    if d.len() > 0 && (forall|i: int| 0 <= i < d.len() ==> is_digit(#[trigger] d[i]))
        && digits_value(d) <= usize::MAX {
        Some(digits_value(d))
    } else {
        None
    }
}

/// Scans `s` from the left: the lines already ended by a newline, and the
/// line still open at the end of `s`.
pub open spec fn line_scan(s: Seq<char>) -> (Seq<Seq<char>>, Seq<char>)
    decreases s.len(),
{
    if s.len() == 0 {
        (seq![], seq![])
    } else {
        let (done, open) = line_scan(s.drop_last());
        if s.last() == '\n' {
            (done.push(open), seq![])
        } else {
            (done, open.push(s.last()))
        }
    }
}

/// The lines of `s`: a newline ends each, and the last one may go without.
pub open spec fn lines_of(s: Seq<char>) -> Seq<Seq<char>> {
    let (done, open) = line_scan(s);
    if open.len() > 0 {
        done.push(open)
    } else {
        done
    }
}

/// `line` without the carriage return that may end it.
pub open spec fn without_cr(line: Seq<char>) -> Seq<char> {
    if line.len() > 0 && line.last() == '\r' {
        line.drop_last()
    } else {
        line
    }
}

/// `p` is the position of the first tab of `line`.
pub open spec fn first_tab(line: Seq<char>, p: int) -> bool {
    &&& 0 <= p < line.len()
    &&& line[p] == '\t'
    &&& forall|q: int| 0 <= q < p ==> line[q] != '\t'
}

/// The entry that a line holds: the term before its first tab, and the index
/// after it.
pub open spec fn record_of(line: Seq<char>) -> Option<(Seq<char>, nat)> {
    if exists|p: int| first_tab(line, p) {
        let p = choose|p: int| first_tab(line, p);
        match index_value(line.subrange(p + 1, line.len() as int)) {
            Some(v) => Some((line.take(p), v)),
            None => None,
        }
    } else {
        None
    }
}

/// The entries that `lines` give, a later line for a term replacing the
/// index of an earlier one; `None` if a line is malformed.
pub open spec fn load_lines(lines: Seq<Seq<char>>) -> Option<Seq<(Seq<char>, nat)>>
    decreases lines.len(),
{
    if lines.len() == 0 {
        Some(seq![])
    } else {
        match load_lines(lines.drop_last()) {
            Some(e) => match record_of(without_cr(lines.last())) {
                Some(r) => Some(assigned(e, r.0, r.1)),
                None => None,
            },
            None => None,
        }
    }
}

/// The entries that a saved vocabulary holds; `None` if a line is malformed.
pub open spec fn load_of(text: Seq<char>) -> Option<Seq<(Seq<char>, nat)>> {
    load_lines(lines_of(text))
}

/// The line, without its newline, that saves one entry.
pub open spec fn record_line(e: (Seq<char>, nat)) -> Seq<char> {
    e.0 + seq!['\t'] + decimal(e.1)
}

/// The saved text of `e`: one line per entry, in order.
pub open spec fn saved(e: Seq<(Seq<char>, nat)>) -> Seq<char>
    decreases e.len(),
{
    if e.len() == 0 {
        seq![]
    } else {
        saved(e.drop_last()) + record_line(e.last()).push('\n')
    }
}

fn digit(d: usize) -> (c: char)
    requires
        d < 10,
    ensures
        c == digit_char(d as nat),
        is_digit(c),
        c as int - 48 == d,
{
    ((d as u8) + 48u8) as char
}

proof fn lemma_digit_char(d: nat)
    requires
        d < 10,
    ensures
        is_digit(digit_char(d)),
        digit_char(d) as int - 48 == d,
{
}

proof fn lemma_decimal(n: nat)
    ensures
        decimal(n).len() > 0,
        forall|i: int| 0 <= i < decimal(n).len() ==> is_digit(#[trigger] decimal(n)[i]),
        digits_value(decimal(n)) == n,
    decreases n,
{
    if n < 10 {
        lemma_digit_char(n);
        assert(decimal(n).drop_last() =~= Seq::<char>::empty());
        assert(decimal(n).last() == digit_char(n));
        assert(digits_value(Seq::<char>::empty()) == 0);
    } else {
        lemma_decimal(n / 10);
        lemma_digit_char(n % 10);
        assert(decimal(n).drop_last() == decimal(n / 10));
        assert(decimal(n).last() == digit_char(n % 10));
        assert(digits_value(decimal(n)) == digits_value(decimal(n / 10)) * 10 + (n % 10));
        assert((n / 10) * 10 + n % 10 == n) by (nonlinear_arith);
    }
}

proof fn lemma_digits_prefix(s: Seq<char>, j: int)
    requires
        0 <= j <= s.len(),
        forall|i: int| 0 <= i < s.len() ==> is_digit(#[trigger] s[i]),
    ensures
        digits_value(s.take(j)) <= digits_value(s),
    decreases s.len(),
{
    if j < s.len() {
        assert(s.drop_last().take(j) == s.take(j));
        lemma_digits_prefix(s.drop_last(), j);
    } else {
        assert(s.take(j) == s);
    }
}

/// Appends the decimal digits of `n` to `s`.
fn push_decimal(s: &mut String, n: usize)
    ensures
        final(s)@ == old(s)@ + decimal(n as nat),
    decreases n,
{
    if n >= 10 {
        push_decimal(s, n / 10);
    }
    push_char(s, digit(n % 10));
    assert(final(s)@ =~= old(s)@ + decimal(n as nat));
}

/// The index spelled by `line[from..to]`.
fn parse_index(line: &Vec<char>, from: usize, to: usize) -> (r: Option<usize>)
    requires
        from <= to <= line.len(),
    ensures
        match r {
            Some(v) => index_value(line@.subrange(from as int, to as int)) == Some(v as nat),
            None => index_value(line@.subrange(from as int, to as int)) is None,
        },
{
    let ghost s = line@.subrange(from as int, to as int);
    let mut i = from;
    if i < to && line[i] == '+' {
        i = i + 1;
    }
    let ghost d = unsigned_part(s);
    assert(d == line@.subrange(i as int, to as int));
    if i == to {
        return None;
    }
    let start = i;
    let mut v: usize = 0;
    while i < to
        invariant
            from <= start <= i <= to <= line.len(),
            s == line@.subrange(from as int, to as int),
            d == unsigned_part(s),
            d == line@.subrange(start as int, to as int),
            forall|j: int| start <= j < i ==> is_digit(#[trigger] line@[j]),
            v == digits_value(line@.subrange(start as int, i as int)),
        decreases to - i,
    {
        let c = line[i];
        let ghost p = line@.subrange(start as int, i + 1);
        assert(p.drop_last() == line@.subrange(start as int, i as int));
        if !('0' <= c && c <= '9') {
            assert(d[i - start] == c);
            assert(!is_digit(d[i - start]));
            assert(unsigned_part(s) == d);
            assert(!(forall|j: int| 0 <= j < d.len() ==> is_digit(#[trigger] d[j])));
            assert(index_value(s) is None);
            return None;
        }
        let dv = (c as u32 - 48) as usize;
        let next = match v.checked_mul(10) {
            Some(m) => m.checked_add(dv),
            None => None,
        };
        match next {
            Some(w) => {
                v = w;
            },
            None => {
                proof {
                    assert(digits_value(p) == v * 10 + dv);
                    if forall|j: int| 0 <= j < d.len() ==> is_digit(#[trigger] d[j]) {
                        assert(d.take(i + 1 - start) == p);
                        lemma_digits_prefix(d, i + 1 - start);
                    }
                    assert(index_value(s) is None);
                }
                return None;
            },
        }
        i = i + 1;
    }
    assert(line@.subrange(start as int, i as int) == d);
    Some(v)
}

proof fn lemma_line_scan_append(s: Seq<char>, t: Seq<char>)
    requires
        line_scan(s).1.len() == 0,
        forall|j: int| 0 <= j < t.len() ==> t[j] != '\n',
    ensures
        line_scan(s + t) == (line_scan(s).0, t),
    decreases t.len(),
{
    if t.len() == 0 {
        assert(s + t == s);
        assert(line_scan(s).1 == t);
    } else {
        lemma_line_scan_append(s, t.drop_last());
        assert((s + t).drop_last() == s + t.drop_last());
        assert(t.drop_last().push(t.last()) == t);
    }
}

proof fn lemma_record_line(e: (Seq<char>, nat))
    requires
        e.1 <= usize::MAX,
        forall|j: int| 0 <= j < e.0.len() ==> e.0[j] != '\t' && e.0[j] != '\n',
    ensures
        forall|j: int| 0 <= j < record_line(e).len() ==> record_line(e)[j] != '\n',
        record_of(without_cr(record_line(e))) == Some(e),
{
    let l = record_line(e);
    let k = e.0.len() as int;
    lemma_decimal(e.1);
    let d = decimal(e.1);
    assert forall|j: int| 0 <= j < l.len() implies l[j] != '\n' by {
        if j > k {
            assert(l[j] == d[j - k - 1]);
        }
    }
    assert(is_digit(l.last())) by {
        assert(l.last() == d[d.len() - 1]);
    }
    assert(without_cr(l) == l);
    assert(first_tab(l, k));
    assert forall|q: int| first_tab(l, q) implies q == k by {
        if q < k {
            assert(l[q] == e.0[q]);
        }
    }
    assert(l.subrange(k + 1, l.len() as int) == d);
    assert(is_digit(d[0]));
    assert(unsigned_part(d) == d);
    assert(l.take(k) == e.0);
}

proof fn lemma_saved_lines(e: Seq<(Seq<char>, nat)>)
    requires
        forall|i: int| 0 <= i < e.len() ==> (#[trigger] e[i]).1 <= usize::MAX,
        forall|i: int, j: int| 0 <= i < e.len() && 0 <= j < e[i].0.len() ==>
            (#[trigger] e[i].0[j]) != '\t' && e[i].0[j] != '\n',
    ensures
        line_scan(saved(e)) == (e.map_values(|p: (Seq<char>, nat)| record_line(p)), Seq::<char>::empty()),
    decreases e.len(),
{
    if e.len() == 0 {
        assert(line_scan(saved(e)).0 =~= e.map_values(|p: (Seq<char>, nat)| record_line(p)));
    } else {
        let prev = e.drop_last();
        lemma_saved_lines(prev);
        let last = e.last();
        assert(e[e.len() - 1] == last);
        lemma_record_line(last);
        let l = record_line(last);
        lemma_line_scan_append(saved(prev), l);
        assert((saved(prev) + l.push('\n')).drop_last() == saved(prev) + l);
        assert(saved(e) == saved(prev) + l.push('\n'));
        assert(e.map_values(|p: (Seq<char>, nat)| record_line(p)) =~= prev.map_values(
            |p: (Seq<char>, nat)| record_line(p),
        ).push(l));
    }
}

proof fn lemma_load_records(e: Seq<(Seq<char>, nat)>)
    requires
        distinct_keys(e),
        forall|i: int| 0 <= i < e.len() ==> (#[trigger] e[i]).1 <= usize::MAX,
        forall|i: int, j: int| 0 <= i < e.len() && 0 <= j < e[i].0.len() ==>
            (#[trigger] e[i].0[j]) != '\t' && e[i].0[j] != '\n',
    ensures
        load_lines(e.map_values(|p: (Seq<char>, nat)| record_line(p))) == Some(e),
    decreases e.len(),
{
    let ls = e.map_values(|p: (Seq<char>, nat)| record_line(p));
    if e.len() == 0 {
        assert(ls.len() == 0);
        assert(e =~= Seq::<(Seq<char>, nat)>::empty());
    } else {
        let prev = e.drop_last();
        lemma_load_records(prev);
        assert(ls.drop_last() =~= prev.map_values(|p: (Seq<char>, nat)| record_line(p)));
        let last = e.last();
        assert(e[e.len() - 1] == last);
        lemma_record_line(last);
        assert(ls.last() == record_line(last));
        assert(!exists|i: int| 0 <= i < prev.len() && prev[i].0 == last.0) by {
            if exists|i: int| 0 <= i < prev.len() && prev[i].0 == last.0 {
                let i = choose|i: int| 0 <= i < prev.len() && prev[i].0 == last.0;
                assert(e[i].0 == e[e.len() - 1].0);
            }
        }
        assert(prev.push(last) == e);
    }
}

/// Saving entries and reading the saved text back gives the same entries, in
/// the same order, provided that no term holds a tab or a newline and every
/// index fits in `usize`.
pub proof fn lemma_round_trip(e: Seq<(Seq<char>, nat)>)
    requires
        distinct_keys(e),
        forall|i: int| 0 <= i < e.len() ==> (#[trigger] e[i]).1 <= usize::MAX,
        forall|i: int, j: int| 0 <= i < e.len() && 0 <= j < e[i].0.len() ==>
            (#[trigger] e[i].0[j]) != '\t' && e[i].0[j] != '\n',
    ensures
        load_of(saved(e)) == Some(e),
{
    lemma_saved_lines(e);
    lemma_load_records(e);
}

/// Saving a vocabulary and reading the saved text back gives a vocabulary
/// with the same entries, provided that no term holds a tab or a newline.
pub proof fn lemma_vocab_round_trip(v: &Vocab)
    requires
        v.wf(),
        forall|i: int, j: int| 0 <= i < v@.len() && 0 <= j < v@[i].0.len() ==>
            (#[trigger] v@[i].0[j]) != '\t' && v@[i].0[j] != '\n',
    ensures
        load_of(saved(v@)) == Some(v@),
{
    v.lemma_wf_view();
    lemma_round_trip(v@);
}

proof fn lemma_bad_line(ls: Seq<Seq<char>>, i: int)
    requires
        0 <= i < ls.len(),
        record_of(without_cr(ls[i])) is None,
    ensures
        load_lines(ls) is None,
    decreases ls.len(),
{
    if i < ls.len() - 1 {
        lemma_bad_line(ls.drop_last(), i);
    }
}

/// A saved text with a line that holds no tab reads as malformed, never as a
/// partial vocabulary.
pub proof fn lemma_line_without_tab(text: Seq<char>, i: int)
    requires
        0 <= i < lines_of(text).len(),
        !lines_of(text)[i].contains('\t'),
    ensures
        load_of(text) is None,
{
    let l = without_cr(lines_of(text)[i]);
    assert(!exists|p: int| first_tab(l, p)) by {
        if exists|p: int| first_tab(l, p) {
            let p = choose|p: int| first_tab(l, p);
            assert(lines_of(text)[i][p] == '\t');
        }
    }
    lemma_bad_line(lines_of(text), i);
}

/// Reads the entry of one line into `v`; false if the line is malformed.
fn take_record(v: &mut Vocab, line: &Vec<char>) -> (r: bool)
    requires
        old(v).wf(),
    ensures
        final(v).wf(),
        match record_of(without_cr(line@)) {
            Some(e) => r && final(v)@ == assigned(old(v)@, e.0, e.1),
            None => !r,
        },
{
    let ghost l = without_cr(line@);
    let mut end: usize = line.len();
    if end > 0 && line[end - 1] == '\r' {
        end = end - 1;
    }
    assert(l == line@.take(end as int));
    let mut p: usize = 0;
    while p < end && line[p] != '\t'
        invariant
            p <= end <= line.len(),
            l == line@.take(end as int),
            forall|q: int| 0 <= q < p ==> line@[q] != '\t',
        decreases end - p,
    {
        p = p + 1;
    }
    if p == end {
        assert(!exists|q: int| first_tab(l, q)) by {
            if exists|q: int| first_tab(l, q) {
                let q = choose|q: int| first_tab(l, q);
                assert(line@[q] == '\t');
            }
        }
        return false;
    }
    assert(first_tab(l, p as int));
    assert forall|q: int| first_tab(l, q) implies q == p by {
        if q < p {
            assert(line@[q] != '\t');
        } else if q > p {
            assert(l[p as int] == '\t');
        }
    }
    assert(line@.subrange(p + 1, end as int) == l.subrange(p + 1, l.len() as int));
    match parse_index(line, p + 1, end) {
        Some(idx) => {
            let mut key = String::new();
            let mut i: usize = 0;
            while i < p
                invariant
                    i <= p < end <= line.len(),
                    key@ == line@.take(i as int),
                decreases p - i,
            {
                push_char(&mut key, line[i]);
                i = i + 1;
                assert(key@ =~= line@.take(i as int));
            }
            assert(key@ == l.take(p as int));
            v.assign(key, idx);
            true
        },
        None => false,
    }
}

impl Vocab {
    /// The saved text of the vocabulary: one `term<TAB>index` line per entry,
    /// in insertion order, each ended by a newline.
    pub fn serialize(&self) -> (r: String)
        requires
            self.wf(),
        ensures
            r@ == saved(self@),
    {
        let es = self.entries();
        let mut out = String::new();
        let mut i: usize = 0;
        while i < es.len()
            invariant
                self.wf(),
                i <= es@.len() == self@.len(),
                forall|j: int| 0 <= j < es@.len() ==> (#[trigger] es@[j]).0@ == self@[j].0 && es@[j].1 == self@[j].1,
                out@ == saved(self@.take(i as int)),
            decreases es.len() - i,
        {
            let ghost before = out@;
            out.append(es[i].0.as_str());
            push_char(&mut out, '\t');
            push_decimal(&mut out, es[i].1);
            push_char(&mut out, '\n');
            proof {
                let t = self@.take(i + 1);
                assert(t.drop_last() == self@.take(i as int));
                assert(t.last() == self@[i as int]);
                assert(out@ =~= before + record_line(self@[i as int]).push('\n'));
            }
            i = i + 1;
        }
        assert(self@.take(self@.len() as int) == self@);
        out
    }

    /// Reads a saved vocabulary: one `term<TAB>index` line per entry, the
    /// term taken as it stands. A later line for a term replaces the index of
    /// an earlier one. Fails with `MalformedRecord` if a line has no tab or
    /// its index is not a decimal number that fits in `usize`.
    pub fn parse(text: &str) -> (r: Result<Vocab, VocabError>)
        ensures
            match r {
                Ok(v) => v.wf() && load_of(text@) == Some(v@),
                Err(e) => e == VocabError::MalformedRecord && load_of(text@) is None,
            },
    {
        let mut v = Vocab::empty();
        let mut ok = true;
        let mut line: Vec<char> = Vec::new();
        for c in it: text.chars()
            invariant
                it.seq() == text@,
                v.wf(),
                line@ == line_scan(it.seq().take(it.index() as int)).1,
                ok == load_lines(line_scan(it.seq().take(it.index() as int)).0) is Some,
                ok ==> load_lines(line_scan(it.seq().take(it.index() as int)).0) == Some(v@),
        {
            assert(it.seq().take(it.index() + 1).drop_last() == it.seq().take(it.index() as int));
            if c == '\n' {
                let ghost done = line_scan(it.seq().take(it.index() as int)).0;
                assert(done.push(line@).drop_last() == done);
                if ok {
                    ok = take_record(&mut v, &line);
                }
                line = Vec::new();
            } else {
                line.push(c);
            }
        }
        assert(text@.take(text@.len() as int) == text@);
        let ghost done = line_scan(text@).0;
        assert(done.push(line@).drop_last() == done);
        if line.len() > 0 && ok {
            ok = take_record(&mut v, &line);
        }
        if ok {
            Ok(v)
        } else {
            Err(VocabError::MalformedRecord)
        }
    }
}

} // verus!

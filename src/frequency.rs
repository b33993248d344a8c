use vstd::prelude::*;

use crate::filechunker::{chunks_of, lemma_chunk_count, FileChunker};

verus! {

/// Symbol width used when none is given.
pub const CHUNK_SIZE: usize = 1;

/// How many times `s` occurs in `chunks`.
pub open spec fn occurrences(chunks: Seq<Seq<u8>>, s: Seq<u8>) -> nat
    decreases chunks.len(),
{
    if chunks.len() == 0 {
        0
    } else {
        occurrences(chunks.drop_last(), s) + if chunks.last() == s {
            1nat
        } else {
            0nat
        }
    }
}

/// The sum of the counts of a frequency table.
pub open spec fn total_count(entries: Seq<(Seq<u8>, u64)>) -> nat
    decreases entries.len(),
{
    if entries.len() == 0 {
        0
    } else {
        total_count(entries.drop_last()) + entries.last().1 as nat
    }
}

/// No symbol is listed twice.
pub open spec fn distinct_symbols(entries: Seq<(Seq<u8>, u64)>) -> bool {
    forall|i: int, j: int|
        0 <= i < j < entries.len() ==> (#[trigger] entries[i]).0 != (#[trigger] entries[j]).0
}

/// Position of the first entry for `s`, or -1 when there is none.
pub open spec fn index_of(entries: Seq<(Seq<u8>, u64)>, s: Seq<u8>) -> int
    decreases entries.len(),
{
    if entries.len() == 0 {
        -1
    } else {
        let i = index_of(entries.drop_last(), s);
        if i >= 0 {
            i
        } else if entries.last().0 == s {
            entries.len() - 1
        } else {
            -1
        }
    }
}

/// The symbols of a frequency table, in listed order.
pub open spec fn symbols_of(entries: Seq<(Seq<u8>, u64)>) -> Seq<Seq<u8>> {
    entries.map_values(|e: (Seq<u8>, u64)| e.0)
}

/// The distinct symbols of `chunks`, in order of first occurrence.
pub open spec fn distinct_in_order(chunks: Seq<Seq<u8>>) -> Seq<Seq<u8>>
    decreases chunks.len(),
{
    if chunks.len() == 0 {
        Seq::empty()
    } else {
        let d = distinct_in_order(chunks.drop_last());
        if d.contains(chunks.last()) {
            d
        } else {
            d.push(chunks.last())
        }
    }
}

/// `entries` lists every symbol of `chunks` once, each with the number of
/// times it occurs there, and nothing else.
pub open spec fn is_frequency_table(entries: Seq<(Seq<u8>, u64)>, chunks: Seq<Seq<u8>>) -> bool {
    &&& distinct_symbols(entries)
    &&& forall|j: int|
        0 <= j < entries.len() ==> (#[trigger] entries[j]).1 == occurrences(chunks, entries[j].0)
            && entries[j].1 >= 1
    &&& forall|s: Seq<u8>|
        #[trigger] occurrences(chunks, s) > 0 ==> exists|j: int|
            0 <= j < entries.len() && (#[trigger] entries[j]).0 == s
}

proof fn lemma_index_of(entries: Seq<(Seq<u8>, u64)>, s: Seq<u8>)
    ensures
        -1 <= index_of(entries, s) < entries.len(),
        index_of(entries, s) == -1 ==> forall|k: int|
            0 <= k < entries.len() ==> (#[trigger] entries[k]).0 != s,
        index_of(entries, s) >= 0 ==> entries[index_of(entries, s)].0 == s,
        forall|k: int| 0 <= k < index_of(entries, s) ==> (#[trigger] entries[k]).0 != s,
    decreases entries.len(),
{
    if entries.len() > 0 {
        let e = entries.drop_last();
        lemma_index_of(e, s);
        let i = index_of(e, s);
        let r = index_of(entries, s);
        assert forall|k: int| 0 <= k < r implies (#[trigger] entries[k]).0 != s by {
            assert(entries[k] == e[k]);
        }
        if r == -1 {
            assert forall|k: int| 0 <= k < entries.len() implies (#[trigger] entries[k]).0 != s by {
                if k < e.len() {
                    assert(entries[k] == e[k]);
                }
            }
        }
        if i >= 0 {
            assert(entries[i] == e[i]);
        }
    }
}

proof fn lemma_occurrences_push(chunks: Seq<Seq<u8>>, s: Seq<u8>, t: Seq<u8>)
    ensures
        occurrences(chunks.push(s), t) == occurrences(chunks, t) + if s == t {
            1nat
        } else {
            0nat
        },
{
    assert(chunks.push(s).drop_last() =~= chunks);
}

proof fn lemma_occurrences_bound(chunks: Seq<Seq<u8>>, s: Seq<u8>)
    ensures
        occurrences(chunks, s) <= chunks.len(),
    decreases chunks.len(),
{
    if chunks.len() > 0 {
        lemma_occurrences_bound(chunks.drop_last(), s);
    }
}

proof fn lemma_total_update(entries: Seq<(Seq<u8>, u64)>, j: int, e: (Seq<u8>, u64))
    requires
        0 <= j < entries.len(),
    ensures
        total_count(entries.update(j, e)) + entries[j].1 == total_count(entries) + e.1,
    decreases entries.len(),
{
    let u = entries.update(j, e);
    if j < entries.len() - 1 {
        assert(u.drop_last() =~= entries.drop_last().update(j, e));
        lemma_total_update(entries.drop_last(), j, e);
    } else {
        assert(u.drop_last() =~= entries.drop_last());
    }
}

proof fn lemma_total_prefix(entries: Seq<(Seq<u8>, u64)>, i: int)
    requires
        0 <= i <= entries.len(),
    ensures
        total_count(entries.take(i)) <= total_count(entries),
    decreases entries.len() - i,
{
    if i < entries.len() {
        lemma_total_prefix(entries, i + 1);
        assert(entries.take(i + 1).drop_last() =~= entries.take(i));
    } else {
        assert(entries.take(i) =~= entries);
    }
}

/// The symbol width that a call with `chunk_size` uses.
pub open spec fn width_of(chunk_size: Option<usize>) -> nat {
    match chunk_size {
        Some(w) => w as nat,
        None => CHUNK_SIZE as nat,
    }
}

/// Counts how often each symbol of width `chunk_size` (by default
/// `CHUNK_SIZE`) occurs in `reader`. A width of zero yields an empty table.
pub fn symbol_freq(reader: Vec<u8>, chunk_size: Option<usize>) -> (r: FrequencyTable)
    ensures
        is_frequency_table(r@, chunks_of(reader@, width_of(chunk_size))),
        symbols_of(r@) == distinct_in_order(chunks_of(reader@, width_of(chunk_size))),
        total_count(r@) == chunks_of(reader@, width_of(chunk_size)).len(),
{
    let ghost data = reader@;
    let n: usize = reader.len();
    let ghost all = chunks_of(data, width_of(chunk_size));
    let cs: usize = match chunk_size {
        Some(w) => w,
        None => CHUNK_SIZE,
    };
    let mut hm = FrequencyTable::new();
    let mut chunker = FileChunker::new(reader, cs);
    let ghost mut seen: Seq<Seq<u8>> = Seq::empty();
    proof {
        lemma_chunk_count(data, cs as nat);
        assert(seen + chunker@ =~= all);
        assert(symbols_of(hm@) =~= distinct_in_order(seen));
    }
    loop
        invariant
            seen + chunker@ == all,
            all.len() <= n,
            is_frequency_table(hm@, seen),
            symbols_of(hm@) == distinct_in_order(seen),
            total_count(hm@) == seen.len(),
        ensures
            is_frequency_table(hm@, all),
            symbols_of(hm@) == distinct_in_order(all),
            total_count(hm@) == all.len(),
        decreases chunker@.len(),
    {
        let ghost before = chunker@;
        match chunker.next() {
            None => {
                assert(seen =~= all);
                break;
            },
            Some(ch) => {
                proof {
                    assert(seen.len() + before.len() == all.len());
                    assert(seen.push(ch@) + chunker@ =~= seen + before);
                }
                hm.record(ch, Ghost(seen));
                proof {
                    seen = seen.push(ch@);
                }
            },
        }
    }
    hm
}

/// Lexicographic order on byte strings: `a` comes strictly before `b`.
pub open spec fn lex_less(a: Seq<u8>, b: Seq<u8>) -> bool
    decreases a.len(),
{
    if a.len() == 0 {
        b.len() > 0
    } else if b.len() == 0 {
        false
    } else if a[0] != b[0] {
        a[0] < b[0]
    } else {
        lex_less(a.drop_first(), b.drop_first())
    }
}

/// The lexicographic order is a strict order.
pub proof fn lemma_lex_asymmetric(a: Seq<u8>, b: Seq<u8>)
    ensures
        !(lex_less(a, b) && lex_less(b, a)),
        !lex_less(a, a),
    decreases a.len(),
{
    if a.len() > 0 && b.len() > 0 && a[0] == b[0] {
        lemma_lex_asymmetric(a.drop_first(), b.drop_first());
    }
    if a.len() > 0 {
        lemma_lex_asymmetric(a.drop_first(), a.drop_first());
    }
}

/// The lexicographic order is transitive.
pub proof fn lemma_lex_transitive(a: Seq<u8>, b: Seq<u8>, c: Seq<u8>)
    requires
        lex_less(a, b),
        lex_less(b, c),
    ensures
        lex_less(a, c),
    decreases a.len(),
{
    if a.len() > 0 && a[0] == b[0] && b[0] == c[0] {
        lemma_lex_transitive(a.drop_first(), b.drop_first(), c.drop_first());
    }
}

/// Any two different byte strings are ordered one way or the other.
pub proof fn lemma_lex_total(a: Seq<u8>, b: Seq<u8>)
    requires
        a != b,
    ensures
        lex_less(a, b) || lex_less(b, a),
    decreases a.len(),
{
    if a.len() > 0 && b.len() > 0 && a[0] == b[0] {
        if a.drop_first() == b.drop_first() {
            assert(a =~= seq![a[0]] + a.drop_first());
            assert(b =~= seq![b[0]] + b.drop_first());
        }
        lemma_lex_total(a.drop_first(), b.drop_first());
    } else if a.len() == 0 && b.len() == 0 {
        assert(a =~= b);
    }
}

/// Whether `a` comes before `b` in lexicographic order.
pub fn bytes_less(a: &Vec<u8>, b: &Vec<u8>) -> (r: bool)
    ensures
        r == lex_less(a@, b@),
{
    let mut i: usize = 0;
    proof {
        assert(a@.skip(0) =~= a@);
        assert(b@.skip(0) =~= b@);
    }
    while i < a.len() && i < b.len()
        invariant
            i <= a.len(),
            i <= b.len(),
            lex_less(a@, b@) == lex_less(a@.skip(i as int), b@.skip(i as int)),
        decreases a.len() - i,
    {
        assert(a@.skip(i as int)[0] == a@[i as int]);
        assert(b@.skip(i as int)[0] == b@[i as int]);
        if a[i] != b[i] {
            return a[i] < b[i];
        }
        assert(a@.skip(i as int).drop_first() =~= a@.skip(i + 1));
        assert(b@.skip(i as int).drop_first() =~= b@.skip(i + 1));
        i += 1;
    }
    i == a.len() && i < b.len()
}

/// Whether two byte strings are equal.
pub fn bytes_eq(a: &Vec<u8>, b: &Vec<u8>) -> (r: bool)
    ensures
        r == (a@ == b@),
{
    if a.len() != b.len() {
        return false;
    }
    let mut i: usize = 0;
    while i < a.len()
        invariant
            a.len() == b.len(),
            i <= a.len(),
            a@.take(i as int) == b@.take(i as int),
        decreases a.len() - i,
    {
        if a[i] != b[i] {
            assert(a@[i as int] != b@[i as int]);
            return false;
        }
        assert(a@.take(i + 1) =~= a@.take(i as int).push(a@[i as int]));
        assert(b@.take(i + 1) =~= b@.take(i as int).push(b@[i as int]));
        i += 1;
    }
    assert(a@ =~= a@.take(i as int));
    assert(b@ =~= b@.take(i as int));
    true
}

/// A copy of a byte string.
pub fn copy_bytes(a: &Vec<u8>) -> (r: Vec<u8>)
    ensures
        r@ == a@,
{
    let mut r: Vec<u8> = Vec::with_capacity(a.len());
    let mut i: usize = 0;
    while i < a.len()
        invariant
            i <= a.len(),
            r@ =~= a@.take(i as int),
        decreases a.len() - i,
    {
        r.push(a[i]);
        i += 1;
    }
    assert(a@.take(i as int) =~= a@);
    r
}

/// A mapping from symbols to counts, each symbol listed once.
pub struct FrequencyTable {
    entries: Vec<(Vec<u8>, u64)>,
}

/// The entries of a table as byte sequences and counts.
pub open spec fn entries_view(entries: Seq<(Vec<u8>, u64)>) -> Seq<(Seq<u8>, u64)> {
    entries.map_values(|e: (Vec<u8>, u64)| (e.0@, e.1))
}

impl View for FrequencyTable {
    type V = Seq<(Seq<u8>, u64)>;

    closed spec fn view(&self) -> Seq<(Seq<u8>, u64)> {
        entries_view(self.entries@)
    }
}

impl FrequencyTable {
    /// No symbol is listed twice.
    #[verifier::type_invariant]
    pub open spec fn well_formed(&self) -> bool {
        distinct_symbols(self@)
    }

    pub fn new() -> (r: FrequencyTable)
        ensures
            r@ == Seq::<(Seq<u8>, u64)>::empty(),
    {
        let r = FrequencyTable { entries: Vec::new() };
        assert(r@ =~= Seq::<(Seq<u8>, u64)>::empty());
        r
    }

    /// Number of distinct symbols.
    pub fn len(&self) -> (r: usize)
        ensures
            r == self@.len(),
    {
        self.entries.len()
    }

    fn find(&self, symbol: &Vec<u8>) -> (r: Option<usize>)
        ensures
            match r {
                Some(j) => j == index_of(self@, symbol@),
                None => index_of(self@, symbol@) == -1,
            },
    {
        proof {
            lemma_index_of(self@, symbol@);
        }
        let mut i: usize = 0;
        while i < self.entries.len()
            invariant
                i <= self@.len() == self.entries.len(),
                forall|k: int| 0 <= k < i ==> (#[trigger] self@[k]).0 != symbol@,
            decreases self.entries.len() - i,
        {
            if bytes_eq(&self.entries[i].0, symbol) {
                assert(self@[i as int].0 == symbol@);
                proof {
                    lemma_index_of(self@, symbol@);
                    let r = index_of(self@, symbol@);
                    if r >= 0 && r < i {
                        assert(self@[r].0 == symbol@);
                    }
                }
                return Some(i);
            }
            i += 1;
        }
        None
    }

    /// The symbol listed at position `j`.
    pub fn symbol_at(&self, j: usize) -> (r: &Vec<u8>)
        requires
            j < self@.len(),
        ensures
            r@ == self@[j as int].0,
    {
        &self.entries[j].0
    }

    /// The count listed at position `j`.
    pub fn count_at(&self, j: usize) -> (r: u64)
        requires
            j < self@.len(),
        ensures
            r == self@[j as int].1,
    {
        self.entries[j].1
    }

    /// The count recorded for `symbol`.
    pub fn get(&self, symbol: &Vec<u8>) -> (r: Option<u64>)
        ensures
            r == (if index_of(self@, symbol@) >= 0 {
                Some(self@[index_of(self@, symbol@)].1)
            } else {
                None
            }),
    {
        proof {
            lemma_index_of(self@, symbol@);
        }
        match self.find(symbol) {
            Some(j) => Some(self.entries[j].1),
            None => None,
        }
    }

    /// The sum of all counts, or `None` when it does not fit in a `u64`.
    pub fn total(&self) -> (r: Option<u64>)
        ensures
            match r {
                Some(t) => t == total_count(self@),
                None => total_count(self@) > u64::MAX,
            },
    {
        let mut sum: u64 = 0;
        let mut i: usize = 0;
        while i < self.entries.len()
            invariant
                i <= self@.len() == self.entries.len(),
                sum == total_count(self@.take(i as int)),
            decreases self.entries.len() - i,
        {
            proof {
                assert(self@.take(i + 1).drop_last() =~= self@.take(i as int));
                lemma_total_prefix(self@, i + 1);
            }
            let c = self.entries[i].1;
            if sum > u64::MAX - c {
                return None;
            }
            sum = sum + c;
            i += 1;
        }
        assert(self@.take(i as int) =~= self@);
        Some(sum)
    }

    /// Sets the count of `symbol`, adding it when it is not yet listed.
    pub fn insert(&mut self, symbol: Vec<u8>, count: u64)
        ensures
            final(self)@ == (if index_of(old(self)@, symbol@) >= 0 {
                old(self)@.update(index_of(old(self)@, symbol@), (symbol@, count))
            } else {
                old(self)@.push((symbol@, count))
            }),
    {
        proof {
            use_type_invariant(&*self);
            lemma_index_of(self@, symbol@);
        }
        let ghost s = symbol@;
        let ghost old_view = self@;
        let found = self.find(&symbol);
        let mut entries: Vec<(Vec<u8>, u64)> = Vec::new();
        std::mem::swap(&mut entries, &mut self.entries);
        match found {
            Some(j) => {
                entries.set(j, (symbol, count));
                assert(entries_view(entries@) =~= old_view.update(j as int, (s, count)));
            },
            None => {
                entries.push((symbol, count));
                assert(entries_view(entries@) =~= old_view.push((s, count)));
            },
        }
        proof {
            let nv = entries_view(entries@);
            assert forall|a: int, b: int| 0 <= a < b < nv.len() implies (#[trigger] nv[a]).0
                != (#[trigger] nv[b]).0 by {
                if a < old_view.len() && b < old_view.len() && nv[a].0 == nv[b].0 {
                    if found is Some {
                        let j = found->0 as int;
                        if a != j && b != j {
                            assert(old_view[a].0 == nv[a].0 && old_view[b].0 == nv[b].0);
                        } else if a == j {
                            assert(old_view[b].0 == nv[b].0);
                        } else {
                            assert(old_view[a].0 == nv[a].0);
                        }
                    } else {
                        assert(old_view[a].0 == nv[a].0 && old_view[b].0 == nv[b].0);
                    }
                } else if nv[a].0 == nv[b].0 {
                    assert(found is None && b == old_view.len());
                    assert(old_view[a].0 == nv[a].0);
                }
            }
        }
        self.entries = entries;
    }

    /// Counts one more occurrence of `symbol` after `chunks`, and returns
    /// how many times it has now occurred.
    pub(crate) fn record(&mut self, symbol: Vec<u8>, Ghost(chunks): Ghost<Seq<Seq<u8>>>) -> (k: u64)
        requires
            is_frequency_table(old(self)@, chunks),
            symbols_of(old(self)@) == distinct_in_order(chunks),
            total_count(old(self)@) == chunks.len(),
            chunks.len() < u64::MAX,
        ensures
            is_frequency_table(final(self)@, chunks.push(symbol@)),
            symbols_of(final(self)@) == distinct_in_order(chunks.push(symbol@)),
            total_count(final(self)@) == chunks.len() + 1,
            k == occurrences(chunks.push(symbol@), symbol@),
    {
        let ghost s = symbol@;
        let ghost old_view = self@;
        let ghost next = chunks.push(s);
        proof {
            use_type_invariant(&*self);
            lemma_index_of(self@, s);
            lemma_occurrences_bound(chunks, s);
            lemma_occurrences_push(chunks, s, s);
        }
        match self.find(&symbol) {
            Some(j) => {
                let k = self.entries[j].1 + 1;
                let mut entries: Vec<(Vec<u8>, u64)> = Vec::new();
                std::mem::swap(&mut entries, &mut self.entries);
                entries.set(j, (symbol, k));
                let ghost nv = entries_view(entries@);
                proof {
                    let e = (s, k);
                    assert(nv =~= old_view.update(j as int, e));
                    assert(next.drop_last() =~= chunks);
                    assert(symbols_of(old_view)[j as int] == s);
                    assert(symbols_of(nv) =~= symbols_of(old_view));
                    lemma_total_update(old_view, j as int, e);
                    assert forall|i: int| 0 <= i < nv.len() implies (#[trigger] nv[i]).1
                        == occurrences(next, nv[i].0) && nv[i].1 >= 1 by {
                        lemma_occurrences_push(chunks, s, nv[i].0);
                        if i != j {
                            assert(old_view[i] == nv[i]);
                            assert(old_view[i].0 != old_view[j as int].0);
                        }
                    }
                    assert forall|t: Seq<u8>| #[trigger] occurrences(next, t) > 0 implies exists|i: int|
                        0 <= i < nv.len() && (#[trigger] nv[i]).0 == t by {
                        lemma_occurrences_push(chunks, s, t);
                        if t == s {
                            assert(nv[j as int].0 == t);
                        } else {
                            let i = choose|i: int| 0 <= i < old_view.len() && (#[trigger] old_view[i]).0 == t;
                            assert(nv[i].0 == t);
                        }
                    }
                    assert forall|a: int, b: int| 0 <= a < b < nv.len() implies (#[trigger] nv[a]).0
                        != (#[trigger] nv[b]).0 by {
                        assert(old_view[a].0 == nv[a].0);
                        assert(old_view[b].0 == nv[b].0);
                    }
                }
                self.entries = entries;
                k
            },
            None => {
                let mut entries: Vec<(Vec<u8>, u64)> = Vec::new();
                std::mem::swap(&mut entries, &mut self.entries);
                entries.push((symbol, 1));
                let ghost nv = entries_view(entries@);
                proof {
                    let e = (s, 1u64);
                    assert(nv =~= old_view.push(e));
                    assert(next.drop_last() =~= chunks);
                    if symbols_of(old_view).contains(s) {
                        let i = choose|i: int| 0 <= i < symbols_of(old_view).len() && symbols_of(old_view)[i] == s;
                        assert(old_view[i].0 == s);
                    }
                    assert(symbols_of(nv) =~= symbols_of(old_view).push(s));
                    assert(nv.drop_last() =~= old_view);
                    if occurrences(chunks, s) > 0 {
                        let i = choose|i: int| 0 <= i < old_view.len() && (#[trigger] old_view[i]).0 == s;
                        assert(old_view[i].0 == s);
                    }
                    assert forall|i: int| 0 <= i < nv.len() implies (#[trigger] nv[i]).1
                        == occurrences(next, nv[i].0) && nv[i].1 >= 1 by {
                        lemma_occurrences_push(chunks, s, nv[i].0);
                        if i < old_view.len() {
                            assert(old_view[i] == nv[i]);
                        }
                    }
                    assert forall|t: Seq<u8>| #[trigger] occurrences(next, t) > 0 implies exists|i: int|
                        0 <= i < nv.len() && (#[trigger] nv[i]).0 == t by {
                        lemma_occurrences_push(chunks, s, t);
                        if t == s {
                            assert(nv[old_view.len() as int].0 == t);
                        } else {
                            let i = choose|i: int| 0 <= i < old_view.len() && (#[trigger] old_view[i]).0 == t;
                            assert(nv[i].0 == t);
                        }
                    }
                    assert forall|a: int, b: int| 0 <= a < b < nv.len() implies (#[trigger] nv[a]).0
                        != (#[trigger] nv[b]).0 by {
                        assert(old_view[a].0 == nv[a].0);
                        if b < old_view.len() {
                            assert(old_view[b].0 == nv[b].0);
                        }
                    }
                }
                self.entries = entries;
                1
            },
        }
    }
}

} // verus!

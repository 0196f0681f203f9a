//! The write-ahead-log abstraction and its in-memory implementation.
use vstd::prelude::*;

verus! {

/// `std::io::Error`, carried opaquely in [`StoreError`].
#[verifier::external_type_specification]
#[verifier::external_body]
pub struct ExIoError(std::io::Error);

/// `serde_json::Error`, carried opaquely in [`StoreError`].
#[verifier::external_type_specification]
#[verifier::external_body]
pub struct ExJsonError(serde_json::Error);

/// Errors raised by the persistence layer.
#[derive(Debug)]
pub enum StoreError {
    Io(std::io::Error),
    Codec(serde_json::Error),
}

/// One persisted measurement: which series, when, and what value.
#[derive(Debug, Clone, PartialEq)]
pub struct WalRecord<V> {
    pub series: String,
    pub timestamp: u64,
    pub value: V,
}

impl<V: Copy> WalRecord<V> {
    /// A field-for-field copy of the record.
    fn duplicate(&self) -> (r: Self)
        ensures
            r == *self,
    {
        WalRecord { series: self.series.clone(), timestamp: self.timestamp, value: self.value }
    }
}

/// An append-only log of records, replayable to reconstruct state.
pub trait WriteAheadLog<V> {
    /// Appends a record durably.
    fn append(&mut self, record: &WalRecord<V>) -> Result<(), StoreError>;

    /// Replays all records, in append order.
    fn replay(&self) -> Result<Vec<WalRecord<V>>, StoreError>;
}

/// Unicode `White_Space` characters, the ones `str::trim` removes.
pub open spec fn is_white_space(c: char) -> bool {
    ||| ('\u{9}' <= c && c <= '\u{d}')
    ||| c == ' '
    ||| c == '\u{85}'
    ||| c == '\u{a0}'
    ||| c == '\u{1680}'
    ||| ('\u{2000}' <= c && c <= '\u{200a}')
    ||| c == '\u{2028}'
    ||| c == '\u{2029}'
    ||| c == '\u{202f}'
    ||| c == '\u{205f}'
    ||| c == '\u{3000}'
}

/// A line holding only white space (or nothing).
pub open spec fn is_blank(line: Seq<char>) -> bool {
    forall|i: int| 0 <= i < line.len() ==> is_white_space(#[trigger] line[i])
}

/// The pieces of a text between its `'\n'` characters; there is always one
/// more piece than newlines.
pub open spec fn pieces(s: Seq<char>) -> Seq<Seq<char>>
    decreases s.len(),
{
    if s.len() == 0 {
        seq![Seq::<char>::empty()]
    } else {
        let rest = pieces(s.drop_last());
        if s.last() == '\n' {
            rest.push(Seq::<char>::empty())
        } else {
            rest.update(rest.len() - 1, rest.last().push(s.last()))
        }
    }
}

/// A newline-terminated line without a `'\r'` that preceded its `'\n'`.
pub open spec fn strip_cr(line: Seq<char>) -> Seq<char> {
    if line.len() > 0 && line.last() == '\r' {
        line.drop_last()
    } else {
        line
    }
}

/// The lines of a text as `str::lines` yields them: the pieces between
/// newlines, each dropping a `'\r'` that ends it before its `'\n'`, and no
/// empty piece after a final newline.
pub open spec fn text_lines(s: Seq<char>) -> Seq<Seq<char>> {
    let ps = pieces(s);
    let terminated = ps.drop_last().map_values(|l: Seq<char>| strip_cr(l));
    if ps.last().len() == 0 {
        terminated
    } else {
        terminated.push(ps.last())
    }
}

/// The record lines of a log file's text: its lines, skipping blank ones.
pub open spec fn record_lines(s: Seq<char>) -> Seq<Seq<char>> {
    text_lines(s).filter(|l: Seq<char>| !is_blank(l))
}

/// Whether `c` is a Unicode `White_Space` character.
pub fn white_space(c: char) -> (r: bool)
    ensures
        r == is_white_space(c),
{
    ('\u{9}' <= c && c <= '\u{d}') || c == ' ' || c == '\u{85}' || c == '\u{a0}' || c == '\u{1680}' || (
    '\u{2000}' <= c && c <= '\u{200a}') || c == '\u{2028}' || c == '\u{2029}' || c == '\u{202f}' || c
        == '\u{205f}' || c == '\u{3000}'
}

/// Whether a line holds only white space.
fn blank(line: &Vec<char>) -> (r: bool)
    ensures
        r == is_blank(line@),
{
    let mut i: usize = 0;
    while i < line.len()
        invariant
            i <= line@.len(),
            forall|j: int| 0 <= j < i ==> is_white_space(#[trigger] line@[j]),
        decreases line@.len() - i,
    {
        if !white_space(line[i]) {
            return false;
        }
        i = i + 1;
    }
    true
}

/// Splits a log file's text into its record lines, one record per line,
/// skipping lines that are blank.
pub fn log_lines(content: &str) -> (r: Vec<Vec<char>>)
    ensures
        r@.map_values(|l: Vec<char>| l@) == record_lines(content@),
{
    let chars = crate::key::chars_of(content);
    let ghost s = chars@;
    let ghost keep = |l: Seq<char>| !is_blank(l);
    let mut out: Vec<Vec<char>> = Vec::new();
    let mut cur: Vec<char> = Vec::new();
    let mut i: usize = 0;
    proof {
        assert(pieces(s.take(0)) =~= seq![Seq::<char>::empty()]) by {
            assert(s.take(0).len() == 0);
        }
        assert(pieces(s.take(0)).drop_last() =~= Seq::<Seq<char>>::empty());
        assert(Seq::<Seq<char>>::empty().map_values(|l: Seq<char>| strip_cr(l)) =~= Seq::<Seq<char>>::empty());
        crate::point::lemma_filter_keeps_none(Seq::<Seq<char>>::empty(), keep);
        assert(out@.map_values(|l: Vec<char>| l@) =~= Seq::<Seq<char>>::empty());
    }
    while i < chars.len()
        invariant
            i <= s.len(),
            s == chars@,
            keep == (|l: Seq<char>| !is_blank(l)),
            cur@ == pieces(s.take(i as int)).last(),
            out@.map_values(|l: Vec<char>| l@) == pieces(s.take(i as int)).drop_last().map_values(
                |l: Seq<char>| strip_cr(l),
            ).filter(keep),
        decreases s.len() - i,
    {
        let c = chars[i];
        let ghost prev = s.take(i as int);
        let ghost ps = pieces(prev);
        proof {
            assert(s.take(i + 1).drop_last() =~= prev);
            assert(s.take(i + 1).last() == c);
            assert(ps.len() >= 1) by {
                lemma_pieces_nonempty(prev);
            }
        }
        let ghost terminated = ps.drop_last().map_values(|l: Seq<char>| strip_cr(l));
        if c == '\n' {
            let mut line = cur;
            if line.len() > 0 && line[line.len() - 1] == '\r' {
                line.pop();
            }
            proof {
                assert(line@ == strip_cr(ps.last()));
                let nps = pieces(s.take(i + 1));
                assert(nps == ps.push(Seq::<char>::empty()));
                assert(nps.drop_last() =~= ps);
                assert(ps =~= ps.drop_last().push(ps.last()));
                assert(ps.map_values(|l: Seq<char>| strip_cr(l)) =~= terminated.push(strip_cr(ps.last())));
                terminated.lemma_filter_push(strip_cr(ps.last()), keep);
            }
            if !blank(&line) {
                out.push(line);
            }
            cur = Vec::new();
            proof {
                assert(out@.map_values(|l: Vec<char>| l@) =~= pieces(s.take(i + 1)).drop_last().map_values(
                    |l: Seq<char>| strip_cr(l),
                ).filter(keep));
            }
        } else {
            cur.push(c);
            proof {
                let nps = pieces(s.take(i + 1));
                assert(nps == ps.update(ps.len() - 1, ps.last().push(c)));
                assert(nps.drop_last() =~= ps.drop_last());
            }
        }
        i = i + 1;
    }
    let ghost ps = pieces(s);
    proof {
        assert(s.take(i as int) =~= s);
        lemma_pieces_nonempty(s);
    }
    let ghost terminated = ps.drop_last().map_values(|l: Seq<char>| strip_cr(l));
    if cur.len() > 0 {
        proof {
            terminated.lemma_filter_push(ps.last(), keep);
        }
        if !blank(&cur) {
            out.push(cur);
        }
    }
    proof {
        assert(content@ == s);
        assert(out@.map_values(|l: Vec<char>| l@) =~= record_lines(s));
    }
    out
}

/// A text always has at least one piece.
proof fn lemma_pieces_nonempty(s: Seq<char>)
    ensures
        pieces(s).len() >= 1,
    decreases s.len(),
{
    if s.len() > 0 {
        lemma_pieces_nonempty(s.drop_last());
    }
}

/// An in-memory WAL for tests and ephemeral use. Real append semantics, no disk.
#[derive(Debug)]
pub struct InMemoryWal<V> {
    records: Vec<WalRecord<V>>,
}

impl<V> View for InMemoryWal<V> {
    type V = Seq<WalRecord<V>>;

    /// The records appended so far, in append order.
    closed spec fn view(&self) -> Seq<WalRecord<V>> {
        self.records@
    }
}

impl<V: Copy> InMemoryWal<V> {
    /// An empty log.
    pub fn new() -> (r: Self)
        ensures
            r@ == Seq::<WalRecord<V>>::empty(),
    {
        InMemoryWal { records: Vec::new() }
    }

    /// The number of records appended.
    pub fn len(&self) -> (r: usize)
        ensures
            r == self@.len(),
    {
        self.records.len()
    }

    /// Whether no record has been appended.
    pub fn is_empty(&self) -> (r: bool)
        ensures
            r == (self@.len() == 0),
    {
        self.records.is_empty()
    }
}

impl<V: Copy> Default for InMemoryWal<V> {
    fn default() -> (r: Self)
        ensures
            r@ == Seq::<WalRecord<V>>::empty(),
    {
        InMemoryWal::new()
    }
}

impl<V: Copy> WriteAheadLog<V> for InMemoryWal<V> {
    /// Appends a copy of the record; never fails.
    fn append(&mut self, record: &WalRecord<V>) -> (r: Result<(), StoreError>)
        ensures
            r is Ok,
            final(self)@ == old(self)@.push(*record),
    {
        self.records.push(record.duplicate());
        Ok(())
    }

    /// Returns a copy of every record, in append order; never fails.
    fn replay(&self) -> (r: Result<Vec<WalRecord<V>>, StoreError>)
        ensures
            r matches Ok(records) && records@ == self@,
    {
        let mut out: Vec<WalRecord<V>> = Vec::new();
        let mut i: usize = 0;
        while i < self.records.len()
            invariant
                i <= self.records@.len(),
                out@ == self.records@.take(i as int),
            decreases self.records@.len() - i,
        {
            out.push(self.records[i].duplicate());
            proof {
                assert(self.records@.take(i + 1) =~= self.records@.take(i as int).push(self.records@[i as int]));
            }
            i = i + 1;
        }
        assert(self.records@.take(i as int) =~= self.records@);
        Ok(out)
    }
}

} // verus!

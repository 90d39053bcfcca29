use vstd::prelude::*;
use crate::envelope::Envelope;

verus! {

/// The rows joined by a comma and a line break.
pub open spec fn join_rows(rows: Seq<Seq<u8>>) -> Seq<u8>
    decreases rows.len(),
{
    if rows.len() == 0 {
        Seq::empty()
    } else if rows.len() == 1 {
        rows[0]
    } else {
        join_rows(rows.drop_last()) + seq![0x2Cu8, 0x0Au8] + rows.last()
    }
}

/// The whole store file: a JSON array holding one row per recorded report.
pub open spec fn store_text(rows: Seq<Seq<u8>>) -> Seq<u8> {
    seq![0x5Bu8] + join_rows(rows) + seq![0x5Du8]
}

/// The append-only sink. Each record rewrites the closing bracket of the file,
/// so the file is a complete array after every append.
pub struct Logger {
    count: usize,
    rows: Ghost<Seq<Seq<u8>>>,
}

/// What an append writes over the closing bracket: a separator unless the
/// store is empty, the row, and the bracket again.
pub open spec fn append_bytes(rows: Seq<Seq<u8>>, row: Seq<u8>) -> Seq<u8> {
    (if rows.len() > 0 { seq![0x2Cu8, 0x0Au8] } else { Seq::empty() }) + row + seq![0x5Du8]
}

/// The store is append-only: after a row is added, the file is the old file
/// without its closing bracket, followed by the appended bytes.
pub proof fn lemma_append_only(rows: Seq<Seq<u8>>, row: Seq<u8>)
    ensures
        store_text(rows.push(row)) == store_text(rows).drop_last() + append_bytes(rows, row),
{
    let n = rows.push(row);
    assert(n.drop_last() =~= rows);
    assert(store_text(rows).drop_last() =~= seq![0x5Bu8] + join_rows(rows));
    assert(store_text(rows).drop_last() + append_bytes(rows, row) =~= store_text(n));
}

/// Two reports recorded one after the other: every byte before the old
/// closing bracket stays, the first report's row follows, and the second
/// report's row stands after it.
pub proof fn lemma_reports_in_order(rows: Seq<Seq<u8>>, first: Seq<u8>, second: Seq<u8>)
    ensures
        ({
            let t = store_text(rows.push(first).push(second));
            let k = store_text(rows).len() - 1 + if rows.len() > 0 { 2int } else { 0int };
            let k2 = k + first.len() + 2;
            &&& t.subrange(0, store_text(rows).len() - 1) == store_text(rows).drop_last()
            &&& t.subrange(k, k + first.len()) == first
            &&& t.subrange(k2, k2 + second.len()) == second
        }),
{
    lemma_append_only(rows, first);
    lemma_append_only(rows.push(first), second);
    let t0 = store_text(rows);
    let t1 = store_text(rows.push(first));
    let t = store_text(rows.push(first).push(second));
    let k = t0.len() - 1 + if rows.len() > 0 { 2int } else { 0int };
    assert(t1.drop_last() =~= t0.drop_last() + (if rows.len() > 0 {
        seq![0x2Cu8, 0x0Au8]
    } else {
        Seq::empty()
    }) + first);
    assert(t =~= t1.drop_last() + append_bytes(rows.push(first), second));
    assert(t.subrange(0, t0.len() - 1) =~= t0.drop_last());
    assert(t.subrange(k, k + first.len()) =~= first);
    let k2 = k + first.len() + 2;
    assert(t.subrange(k2, k2 + second.len()) =~= second);
}

impl View for Logger {
    type V = Seq<Seq<u8>>;

    closed spec fn view(&self) -> Seq<Seq<u8>> {
        self.rows@
    }
}

impl Logger {
    pub closed spec fn wf(&self) -> bool {
        self.count == self.rows@.len()
    }

    /// A logger over a fresh, empty store.
    pub fn new() -> (r: Logger)
        ensures
            r.wf(),
            r@ == Seq::<Seq<u8>>::empty(),
    {
        Logger { count: 0, rows: Ghost(Seq::empty()) }
    }

    /// The content of a freshly created store file.
    pub fn initial_text() -> (r: Vec<u8>)
        ensures
            r@ == store_text(Seq::empty()),
    {
        let r = vec![0x5Bu8, 0x5Du8];
        assert(r@ =~= store_text(Seq::empty()));
        r
    }

    /// Number of rows recorded so far.
    pub fn rows(&self) -> (r: usize)
        requires
            self.wf(),
        ensures
            r == self@.len(),
    {
        self.count
    }

    /// Appends one row. The returned bytes are to be written over the last
    /// byte of the store file (its closing bracket).
    pub fn append(&mut self, row: &[u8]) -> (r: Vec<u8>)
        requires
            old(self).wf(),
            old(self)@.len() < usize::MAX,
        ensures
            final(self).wf(),
            final(self)@ == old(self)@.push(row@),
            r@ == append_bytes(old(self)@, row@),
            store_text(old(self)@).subrange(0, store_text(old(self)@).len() - 1) + r@
                == store_text(final(self)@),
    {
        let mut r: Vec<u8> = Vec::new();
        if self.count > 0 {
            r.push(0x2Cu8);
            r.push(0x0Au8);
        }
        let mut i: usize = 0;
        let ghost start = r@;
        while i < row.len()
            invariant
                i <= row@.len(),
                r@ == start + row@.subrange(0, i as int),
            decreases row@.len() - i,
        {
            r.push(row[i]);
            i = i + 1;
            assert(row@.subrange(0, i as int) =~= row@.subrange(0, i - 1) + seq![row@[i - 1]]);
        }
        assert(row@.subrange(0, i as int) =~= row@);
        r.push(0x5Du8);
        assert(r@ =~= append_bytes(self.rows@, row@));
        let ghost old_rows = self.rows@;
        self.rows = Ghost(old_rows.push(row@));
        self.count = self.count + 1;
        proof {
            let t = store_text(old_rows);
            let n = old_rows.push(row@);
            assert(n.drop_last() =~= old_rows);
            assert(t.subrange(0, t.len() - 1) =~= seq![0x5Bu8] + join_rows(old_rows));
            assert(seq![0x5Bu8] + join_rows(old_rows) + r@ =~= store_text(n));
        }
        r
    }

    /// Records a resolved payload: a report is appended as a row and the bytes
    /// to write are returned; anything else leaves the store as it is.
    pub fn record(&mut self, env: &Envelope, payload: &[u8]) -> (r: Option<Vec<u8>>)
        requires
            old(self).wf(),
            old(self)@.len() < usize::MAX,
        ensures
            final(self).wf(),
            env is Report ==> r is Some && final(self)@ == old(self)@.push(payload@)
                && r.unwrap()@ == append_bytes(old(self)@, payload@)
                && store_text(old(self)@).subrange(0, store_text(old(self)@).len() - 1)
                + r.unwrap()@ == store_text(final(self)@),
            !(env is Report) ==> r is None && final(self)@ == old(self)@,
    {
        match env {
            Envelope::Report(_) => Some(self.append(payload)),
            _ => None,
        }
    }
}

} // verus!

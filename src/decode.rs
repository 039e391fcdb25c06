use vstd::prelude::*;

verus! {

/// Width in bytes of one raw record: a single-precision float.
pub const RECORD_BYTES: usize = 4;

/// The `i`-th complete record of a raw stream.
pub open spec fn record_at(s: Seq<u8>, i: int) -> Seq<u8> {
    s.subrange(4 * i, 4 * i + 4)
}

/// The complete records of a raw stream, in order; a trailing partial record
/// is not one of them.
pub open spec fn records_of(s: Seq<u8>) -> Seq<Seq<u8>> {
    Seq::new(s.len() / 4, |i: int| record_at(s, i))
}

/// Splits a raw stream into its complete 4-byte records, dropping the 0 to 3
/// bytes of a truncated last record.
pub fn split_records(input: &Vec<u8>) -> (r: Vec<[u8; 4]>)
    ensures
        r@.len() == input@.len() / 4,
        forall|i: int| 0 <= i < r@.len() ==> #[trigger] r@[i]@ == record_at(input@, i),
        r@.map_values(|a: [u8; 4]| a@) == records_of(input@),
{
    let len: usize = input.len();
    let n: usize = len / RECORD_BYTES;
    let mut r: Vec<[u8; 4]> = Vec::new();
    let mut k: usize = 0;
    while k < n
        invariant
            n == input@.len() / 4,
            len == input@.len(),
            k <= n,
            r@.len() == k,
            forall|i: int| 0 <= i < k ==> #[trigger] r@[i]@ == record_at(input@, i),
        decreases n - k,
    {
        assert(4 * k + 4 <= input@.len()) by (nonlinear_arith)
            requires
                k < n,
                n == input@.len() / 4,
        ;
        let b: usize = 4 * k;
        let rec: [u8; 4] = [input[b], input[b + 1], input[b + 2], input[b + 3]];
        assert(rec@ =~= record_at(input@, k as int));
        r.push(rec);
        k = k + 1;
    }
    assert(r@.map_values(|a: [u8; 4]| a@) =~= records_of(input@));
    r
}

/// The line terminator.
pub const NEWLINE: u8 = 10;

/// The carriage return that may stand before a terminator.
pub const CARRIAGE_RETURN: u8 = 13;

/// A terminated line without its `\r`, if it had one before the `\n`.
pub open spec fn strip_cr(l: Seq<u8>) -> Seq<u8> {
    if l.len() > 0 && l.last() == CARRIAGE_RETURN {
        l.drop_last()
    } else {
        l
    }
}

/// Line splitting after reading `s`: the lines finished so far, and the
/// bytes of the line that is still pending.
pub open spec fn scan(s: Seq<u8>) -> (Seq<Seq<u8>>, Seq<u8>)
    decreases s.len(),
{
    if s.len() == 0 {
        (seq![], seq![])
    } else {
        let (done, pending) = scan(s.drop_last());
        if s.last() == NEWLINE {
            (done.push(strip_cr(pending)), seq![])
        } else {
            (done, pending.push(s.last()))
        }
    }
}

/// The lines of a text: each `\n` ends one (dropping a `\r` just before
/// it), and bytes after the last `\n` form one more line if there are any.
pub open spec fn lines_of(s: Seq<u8>) -> Seq<Seq<u8>> {
    let (done, pending) = scan(s);
    if pending.len() == 0 {
        done
    } else {
        done.push(pending)
    }
}

/// Splits a text into its lines, in order.
pub fn split_lines(input: &Vec<u8>) -> (r: Vec<Vec<u8>>)
    ensures
        r@.map_values(|l: Vec<u8>| l@) == lines_of(input@),
{
    let mut done: Vec<Vec<u8>> = Vec::new();
    let mut pending: Vec<u8> = Vec::new();
    let mut i: usize = 0;
    while i < input.len()
        invariant
            i <= input@.len(),
            (done@.map_values(|l: Vec<u8>| l@), pending@) == scan(input@.subrange(0, i as int)),
        decreases input@.len() - i,
    {
        let c: u8 = input[i];
        assert(input@.subrange(0, i + 1).drop_last() =~= input@.subrange(0, i as int));
        if c == NEWLINE {
            let len: usize = pending.len();
            if len > 0 && pending[len - 1] == CARRIAGE_RETURN {
                pending.pop();
            }
            done.push(pending);
            pending = Vec::new();
            assert(done@.map_values(|l: Vec<u8>| l@) =~= scan(input@.subrange(0, i + 1)).0);
        } else {
            pending.push(c);
        }
        i = i + 1;
    }
    assert(input@.subrange(0, input@.len() as int) =~= input@);
    if pending.len() > 0 {
        done.push(pending);
        assert(done@.map_values(|l: Vec<u8>| l@) =~= lines_of(input@));
    }
    done
}

/// A text made of the given lines, each followed by a `\n`.
pub open spec fn join_lines(ls: Seq<Seq<u8>>) -> Seq<u8>
    decreases ls.len(),
{
    if ls.len() == 0 {
        seq![]
    } else {
        join_lines(ls.drop_last()) + ls.last().push(NEWLINE)
    }
}

/// A line that a text can hold unchanged: no `\n` in it, no `\r` at its end.
pub open spec fn plain_line(l: Seq<u8>) -> bool {
    &&& forall|j: int| 0 <= j < l.len() ==> l[j] != NEWLINE
    &&& !(l.len() > 0 && l.last() == CARRIAGE_RETURN)
}

proof fn lemma_scan_append(a: Seq<u8>, b: Seq<u8>)
    requires
        scan(a).1.len() == 0,
        forall|j: int| 0 <= j < b.len() ==> b[j] != NEWLINE,
    ensures
        scan(a + b) == (scan(a).0, b),
    decreases b.len(),
{
    if b.len() == 0 {
        assert(a + b =~= a);
        assert(scan(a).1 =~= b);
    } else {
        assert((a + b).drop_last() =~= a + b.drop_last());
        lemma_scan_append(a, b.drop_last());
        assert((a + b).last() == b.last());
        assert(b.drop_last().push(b.last()) =~= b);
    }
}

proof fn lemma_scan_join(ls: Seq<Seq<u8>>)
    requires
        forall|i: int| 0 <= i < ls.len() ==> plain_line(#[trigger] ls[i]),
    ensures
        scan(join_lines(ls)) == (ls, Seq::<u8>::empty()),
    decreases ls.len(),
{
    if ls.len() == 0 {
        assert(scan(join_lines(ls)).0 =~= ls);
        assert(scan(join_lines(ls)).1 =~= Seq::<u8>::empty());
    } else {
        let init = ls.drop_last();
        let l = ls.last();
        assert(forall|i: int| 0 <= i < init.len() ==> init[i] == ls[i]);
        lemma_scan_join(init);
        assert(plain_line(ls[ls.len() - 1]));
        lemma_scan_append(join_lines(init), l);
        let t = join_lines(ls);
        assert(t == join_lines(init) + l.push(NEWLINE));
        assert(t.drop_last() =~= join_lines(init) + l);
        assert(t.last() == NEWLINE);
        assert(strip_cr(l) == l);
        assert(init.push(l) =~= ls);
        assert(scan(t).1 =~= Seq::<u8>::empty());
    }
}

/// Text made of lines that hold no line break reads back as exactly those
/// lines, in order, whether or not the last one is terminated.
pub proof fn lemma_lines_round_trip(ls: Seq<Seq<u8>>, last: Seq<u8>)
    requires
        forall|i: int| 0 <= i < ls.len() ==> plain_line(#[trigger] ls[i]),
        forall|j: int| 0 <= j < last.len() ==> last[j] != NEWLINE,
        last.len() > 0,
    ensures
        lines_of(join_lines(ls)) == ls,
        lines_of(join_lines(ls) + last) == ls.push(last),
        lines_of(join_lines(ls)).len() == ls.len(),
{
    lemma_scan_join(ls);
    lemma_scan_append(join_lines(ls), last);
}

/// A raw stream of whole records followed by 0 to 3 more bytes has exactly
/// the records of the whole part, in order.
pub proof fn lemma_records_ignore_tail(s: Seq<u8>, t: Seq<u8>)
    requires
        s.len() % 4 == 0,
        t.len() < 4,
    ensures
        records_of(s + t) == records_of(s),
        records_of(s).len() == s.len() / 4,
{
    let n = s.len() / 4;
    assert((s.len() + t.len()) / 4 == n) by (nonlinear_arith)
        requires
            s.len() % 4 == 0,
            t.len() < 4,
            n == s.len() / 4,
    ;
    assert forall|i: int| 0 <= i < n implies record_at(s + t, i) == record_at(s, i) by {
        assert(4 * i + 4 <= s.len()) by (nonlinear_arith)
            requires
                0 <= i < n,
                n == s.len() / 4,
        ;
        assert(record_at(s + t, i) =~= record_at(s, i));
    }
    assert(records_of(s + t) =~= records_of(s));
}

/// An empty input holds no lines and no records.
pub proof fn lemma_empty_input()
    ensures
        lines_of(Seq::<u8>::empty()) == Seq::<Seq<u8>>::empty(),
        records_of(Seq::<u8>::empty()) == Seq::<Seq<u8>>::empty(),
{
    assert(lines_of(Seq::<u8>::empty()) =~= Seq::<Seq<u8>>::empty());
    assert(records_of(Seq::<u8>::empty()) =~= Seq::<Seq<u8>>::empty());
}

} // verus!

//! The merge-sort engine: split, merge step, merge pass, doubling driver, complete sort.
use std::marker::PhantomData;
use vstd::prelude::*;

use crate::backend::{MergeReader, MergeWriter, Remaining, SortError};
use crate::order::SortKey;
use crate::runs::{
    deal, doubling_passes, lemma_deal, lemma_halves_sorted, lemma_left_len_one,
    lemma_merge_multiset, lemma_merge_sorted, lemma_pass_multiset, lemma_pass_runs, lemma_runs_one,
    left_len, merge_pass, merge_seq, pass_count, run_len, runs_sorted, sorted,
};

verus! {

/// Sorts sequences of `T` held by any backend that meets the reader/writer contract.
pub struct MergeSorter<T> {
    _phantom: PhantomData<T>,
}

impl<T: SortKey> MergeSorter<T> {
    pub fn new() -> (r: Self) {
        Self { _phantom: PhantomData }
    }

    /// Merges the next run of at most `chunk_size_per_reader` elements of each reader
    /// into `writer`, taking from the left reader on ties. Returns whether either
    /// reader still has elements.
    pub fn merge_step<L, R, W>(
        &self,
        reader_l: &mut L,
        reader_r: &mut R,
        writer: &mut W,
        chunk_size_per_reader: usize,
    ) -> (r: Result<bool, SortError>) where L: MergeReader<T>, R: MergeReader<T>, W: MergeWriter<T>
        ensures
            r matches Ok(more) ==> {
                let ls = old(reader_l).remaining();
                let rs = old(reader_r).remaining();
                let a = run_len(ls.len(), chunk_size_per_reader as nat) as int;
                let b = run_len(rs.len(), chunk_size_per_reader as nat) as int;
                &&& final(writer).written() == old(writer).written() + merge_seq(
                    ls.take(a),
                    rs.take(b),
                )
                &&& final(reader_l).remaining() == ls.skip(a)
                &&& final(reader_r).remaining() == rs.skip(b)
                &&& more == (a < ls.len() || b < rs.len())
            },
            L::infallible() && R::infallible() && W::infallible() ==> r is Ok,
    {
        let ghost ls = reader_l.remaining();
        let ghost rs = reader_r.remaining();
        let ghost w0 = writer.written();
        let c = chunk_size_per_reader;
        let ghost a = run_len(ls.len(), c as nat) as int;
        let ghost b = run_len(rs.len(), c as nat) as int;
        let ghost target = merge_seq(ls.take(a), rs.take(b));
        let mut l_count: usize = 0;
        let mut r_count: usize = 0;
        let mut l_exhausted = reader_l.is_exhausted()?;
        let mut r_exhausted = reader_r.is_exhausted()?;
        assert(ls.skip(0) =~= ls);
        assert(rs.skip(0) =~= rs);
        assert(ls.subrange(0, a) =~= ls.take(a));
        assert(rs.subrange(0, b) =~= rs.take(b));
        assert(w0 + target =~= writer.written() + merge_seq(ls.subrange(0, a), rs.subrange(0, b)));

        while l_count < c && r_count < c && !l_exhausted && !r_exhausted
            invariant
                l_count <= a,
                r_count <= b,
                reader_l.remaining() == ls.skip(l_count as int),
                reader_r.remaining() == rs.skip(r_count as int),
                l_exhausted == (l_count == ls.len()),
                r_exhausted == (r_count == rs.len()),
                writer.written() + merge_seq(
                    ls.subrange(l_count as int, a),
                    rs.subrange(r_count as int, b),
                ) == w0 + target,
                a == run_len(ls.len(), c as nat),
                b == run_len(rs.len(), c as nat),
            decreases a + b - l_count - r_count,
        {
            let left_val = reader_l.get()?;
            let right_val = reader_r.get()?;
            let ghost la = ls.subrange(l_count as int, a);
            let ghost rb = rs.subrange(r_count as int, b);
            let ghost wb = writer.written();
            if left_val.less_eq(&right_val) {
                writer.append(left_val)?;
                assert(la.drop_first() =~= ls.subrange(l_count + 1, a));
                assert(wb.push(la[0]) + merge_seq(la.drop_first(), rb) =~= wb + merge_seq(la, rb));
                let more = reader_l.advance()?;
                l_exhausted = !more;
                assert(ls.skip(l_count as int).drop_first() =~= ls.skip(l_count + 1));
                l_count = l_count + 1;
            } else {
                writer.append(right_val)?;
                assert(rb.drop_first() =~= rs.subrange(r_count + 1, b));
                assert(wb.push(rb[0]) + merge_seq(la, rb.drop_first()) =~= wb + merge_seq(la, rb));
                let more = reader_r.advance()?;
                r_exhausted = !more;
                assert(rs.skip(r_count as int).drop_first() =~= rs.skip(r_count + 1));
                r_count = r_count + 1;
            }
        }

        while l_count < c && !l_exhausted
            invariant
                l_count <= a,
                r_count == b || l_count == a,
                reader_l.remaining() == ls.skip(l_count as int),
                reader_r.remaining() == rs.skip(r_count as int),
                l_exhausted == (l_count == ls.len()),
                r_exhausted == (r_count == rs.len()),
                writer.written() + merge_seq(
                    ls.subrange(l_count as int, a),
                    rs.subrange(r_count as int, b),
                ) == w0 + target,
                a == run_len(ls.len(), c as nat),
                b == run_len(rs.len(), c as nat),
            decreases a - l_count,
        {
            let v = reader_l.get()?;
            let ghost la = ls.subrange(l_count as int, a);
            let ghost wb = writer.written();
            writer.append(v)?;
            assert(la.drop_first() =~= ls.subrange(l_count + 1, a));
            assert(wb.push(la[0]) + merge_seq(la.drop_first(), Seq::empty()) =~= wb + merge_seq(la, Seq::empty()));
            let more = reader_l.advance()?;
            l_exhausted = !more;
            assert(ls.skip(l_count as int).drop_first() =~= ls.skip(l_count + 1));
            l_count = l_count + 1;
        }

        while r_count < c && !r_exhausted
            invariant
                l_count == a,
                r_count <= b,
                reader_l.remaining() == ls.skip(l_count as int),
                reader_r.remaining() == rs.skip(r_count as int),
                l_exhausted == (l_count == ls.len()),
                r_exhausted == (r_count == rs.len()),
                writer.written() + merge_seq(
                    ls.subrange(l_count as int, a),
                    rs.subrange(r_count as int, b),
                ) == w0 + target,
                a == run_len(ls.len(), c as nat),
                b == run_len(rs.len(), c as nat),
            decreases b - r_count,
        {
            let v = reader_r.get()?;
            let ghost rb = rs.subrange(r_count as int, b);
            let ghost wb = writer.written();
            writer.append(v)?;
            assert(rb.drop_first() =~= rs.subrange(r_count + 1, b));
            assert(ls.subrange(l_count as int, a) =~= Seq::<T>::empty());
            assert(wb.push(rb[0]) + merge_seq(Seq::empty(), rb.drop_first()) =~= wb + merge_seq(Seq::empty(), rb));
            let more = reader_r.advance()?;
            r_exhausted = !more;
            assert(rs.skip(r_count as int).drop_first() =~= rs.skip(r_count + 1));
            r_count = r_count + 1;
        }
        assert(ls.subrange(l_count as int, a) =~= Seq::<T>::empty());
        assert(rs.subrange(r_count as int, b) =~= Seq::<T>::empty());
        assert(writer.written() =~= w0 + target);
        Ok(!l_exhausted || !r_exhausted)
    }

    /// One merge pass: merge steps write alternately to `writer_l` and `writer_r`,
    /// starting with `writer_l`, until both readers are exhausted.
    pub fn merge<L, R>(
        &self,
        sorted_l: &mut L,
        sorted_r: &mut R,
        writer_l: &mut L::Writer,
        writer_r: &mut R::Writer,
        chunk_size: usize,
    ) -> (r: Result<(), SortError>) where L: MergeReader<T>, R: MergeReader<T>
        requires
            chunk_size > 0,
        ensures
            r is Ok ==> {
                let pass = merge_pass(
                    old(sorted_l).remaining(),
                    old(sorted_r).remaining(),
                    chunk_size as nat,
                );
                &&& final(writer_l).written() == old(writer_l).written() + pass.0
                &&& final(writer_r).written() == old(writer_r).written() + pass.1
                &&& final(sorted_l).remaining().len() == 0
                &&& final(sorted_r).remaining().len() == 0
            },
            L::infallible() && R::infallible() && <L::Writer as MergeWriter<T>>::infallible()
                && <R::Writer as MergeWriter<T>>::infallible() ==> r is Ok,
    {
        let ghost pass = merge_pass(sorted_l.remaining(), sorted_r.remaining(), chunk_size as nat);
        let ghost wl0 = writer_l.written();
        let ghost wr0 = writer_r.written();
        let c = chunk_size;
        let mut write_left = true;
        let mut more = true;
        assert(wl0 + pass.0 =~= writer_l.written() + pass.0);
        while more
            invariant
                c == chunk_size,
                c > 0,
                !more ==> sorted_l.remaining().len() == 0 && sorted_r.remaining().len() == 0,
                write_left ==> {
                    let cur = merge_pass(sorted_l.remaining(), sorted_r.remaining(), c as nat);
                    &&& writer_l.written() + cur.0 == wl0 + pass.0
                    &&& writer_r.written() + cur.1 == wr0 + pass.1
                },
                !write_left ==> {
                    let cur = merge_pass(sorted_l.remaining(), sorted_r.remaining(), c as nat);
                    &&& writer_l.written() + cur.1 == wl0 + pass.0
                    &&& writer_r.written() + cur.0 == wr0 + pass.1
                },
            decreases sorted_l.remaining().len() + sorted_r.remaining().len() + if more {
                1int
            } else {
                0int
            },
        {
            let ghost cl = sorted_l.remaining();
            let ghost cr = sorted_r.remaining();
            let ghost wl = writer_l.written();
            let ghost wr = writer_r.written();
            let ghost a = run_len(cl.len(), c as nat) as int;
            let ghost b = run_len(cr.len(), c as nat) as int;
            let ghost m = merge_seq(cl.take(a), cr.take(b));
            let ghost rest = merge_pass(cl.skip(a), cr.skip(b), c as nat);
            if write_left {
                more = self.merge_step(sorted_l, sorted_r, writer_l, c)?;
            } else {
                more = self.merge_step(sorted_l, sorted_r, writer_r, c)?;
            }
            proof {
                let e = Seq::<T>::empty();
                assert(e.take(0) =~= e);
                assert(merge_pass(e, e, c as nat) == (e, e));
                if more {
                    assert(merge_pass(cl, cr, c as nat) == (m + rest.1, rest.0));
                    assert(wl + (m + rest.1) =~= (wl + m) + rest.1);
                    assert(wr + (m + rest.1) =~= (wr + m) + rest.1);
                } else {
                    assert(merge_pass(cl, cr, c as nat) == (m, e));
                    assert(sorted_l.remaining() =~= e);
                    assert(sorted_r.remaining() =~= e);
                    assert(writer_l.written() + e =~= writer_l.written());
                    assert(writer_r.written() + e =~= writer_r.written());
                    assert(wl + e =~= wl);
                    assert(wr + e =~= wr);
                }
            }
            write_left = !write_left;
        }
        assert(writer_l.written() + Seq::<T>::empty() =~= writer_l.written());
        assert(writer_r.written() + Seq::<T>::empty() =~= writer_r.written());
        assert(Seq::<T>::empty().take(0) =~= Seq::<T>::empty());
        Ok(())
    }

    /// Deals the source out to `left` and `right` in turn, starting with `left`,
    /// and returns how many elements it held.
    pub fn split<S>(&self, source: &mut S, left: &mut S::Writer, right: &mut S::Writer) -> (r:
        Result<usize, SortError>) where S: MergeReader<T>
        requires
            old(source).remaining().len() <= usize::MAX,
        ensures
            r matches Ok(n) ==> {
                let halves = deal(old(source).remaining());
                &&& n == old(source).remaining().len()
                &&& final(left).written() == old(left).written() + halves.0
                &&& final(right).written() == old(right).written() + halves.1
                &&& final(source).remaining().len() == 0
            },
            S::infallible() && <S::Writer as MergeWriter<T>>::infallible() ==> r is Ok,
    {
        let ghost s0 = source.remaining();
        let ghost l0 = left.written();
        let ghost r0 = right.written();
        let mut count: usize = 0;
        let mut to_left = true;
        let mut exhausted = source.is_exhausted()?;
        assert(s0.skip(0) =~= s0);
        assert(l0 + deal(s0).0 =~= left.written() + deal(s0).0);
        while !exhausted
            invariant
                count <= s0.len(),
                source.remaining() == s0.skip(count as int),
                exhausted == (count == s0.len()),
                s0.len() <= usize::MAX,
                to_left ==> {
                    let d = deal(source.remaining());
                    &&& left.written() + d.0 == l0 + deal(s0).0
                    &&& right.written() + d.1 == r0 + deal(s0).1
                },
                !to_left ==> {
                    let d = deal(source.remaining());
                    &&& left.written() + d.1 == l0 + deal(s0).0
                    &&& right.written() + d.0 == r0 + deal(s0).1
                },
            decreases s0.len() - count,
        {
            let ghost cur = source.remaining();
            let ghost lw = left.written();
            let ghost rw = right.written();
            let v = source.get()?;
            let ghost d = deal(cur.drop_first());
            if to_left {
                left.append(v)?;
                assert(lw + (seq![v] + d.1) =~= lw.push(v) + d.1);
            } else {
                right.append(v)?;
                assert(rw + (seq![v] + d.1) =~= rw.push(v) + d.1);
            }
            to_left = !to_left;
            let _ = source.advance()?;
            assert(s0.skip(count as int).drop_first() =~= s0.skip(count + 1));
            count = count + 1;
            exhausted = source.is_exhausted()?;
        }
        assert(source.remaining() =~= Seq::<T>::empty());
        assert(left.written() + Seq::<T>::empty() =~= left.written());
        assert(right.written() + Seq::<T>::empty() =~= right.written());
        Ok(count)
    }

    /// The doubling driver: merge passes with run lengths 1, 2, 4, ... until a run
    /// exceeds half the total; after each pass the writers become the readers and
    /// the drained readers become the writers. Returns the two sorted halves as
    /// readers, and the two emptied writers.
    pub fn sort<L, R>(
        &self,
        reader_l: L,
        reader_r: R,
        writer_l: L::Writer,
        writer_r: R::Writer,
        total_size: usize,
    ) -> (r: Result<(L, R, L::Writer, R::Writer), SortError>) where
        L: MergeReader<T>,
        R: MergeReader<T>,
        requires
            reader_l.remaining().len() + reader_r.remaining().len() == total_size,
            reader_l.remaining().len() == (total_size + 1) / 2,
            writer_l.written().len() == 0,
            writer_r.written().len() == 0,
        ensures
            r matches Ok((sl, sr, wl, wr)) ==> {
                &&& sorted(sl.remaining())
                &&& sorted(sr.remaining())
                &&& sl.remaining().len() + sr.remaining().len() == total_size
                &&& sl.remaining().to_multiset().add(sr.remaining().to_multiset())
                    == reader_l.remaining().to_multiset().add(reader_r.remaining().to_multiset())
                &&& wl.written().len() == 0
                &&& wr.written().len() == 0
            },
            L::infallible() && R::infallible() && <L::Writer as MergeWriter<T>>::infallible()
                && <R::Writer as MergeWriter<T>>::infallible() ==> r is Ok,
    {
        let ghost n = total_size as nat;
        let ghost total = reader_l.remaining().to_multiset().add(
            reader_r.remaining().to_multiset(),
        );
        let mut reader_l = reader_l;
        let mut reader_r = reader_r;
        let mut writer_l = writer_l;
        let mut writer_r = writer_r;
        let mut chunk_size: usize = 1;
        let ghost mut passes: nat = 0;
        proof {
            lemma_left_len_one(n);
            lemma_runs_one(reader_l.remaining());
            lemma_runs_one(reader_r.remaining());
        }
        loop
            invariant_except_break
                chunk_size == 1 || chunk_size <= total_size / 2,
                passes + doubling_passes(chunk_size as nat, n) == pass_count(n),
            invariant
                chunk_size >= 1,
                n == total_size,
                reader_l.remaining().len() + reader_r.remaining().len() == n,
                reader_l.remaining().len() == left_len(n, chunk_size as nat),
                runs_sorted(reader_l.remaining(), chunk_size as nat),
                runs_sorted(reader_r.remaining(), chunk_size as nat),
                reader_l.remaining().to_multiset().add(reader_r.remaining().to_multiset())
                    == total,
                writer_l.written().len() == 0,
                writer_r.written().len() == 0,
            ensures
                sorted(reader_l.remaining()),
                sorted(reader_r.remaining()),
                reader_l.remaining().len() + reader_r.remaining().len() == n,
                reader_l.remaining().to_multiset().add(reader_r.remaining().to_multiset())
                    == total,
                writer_l.written().len() == 0,
                writer_r.written().len() == 0,
                passes == pass_count(n),
            decreases total_size + 1 - chunk_size,
        {
            let ghost cl = reader_l.remaining();
            let ghost cr = reader_r.remaining();
            let ghost wl = writer_l.written();
            let ghost wr = writer_r.written();
            self.merge(&mut reader_l, &mut reader_r, &mut writer_l, &mut writer_r, chunk_size)?;
            proof {
                let pass = merge_pass(cl, cr, chunk_size as nat);
                lemma_pass_runs(cl, cr, chunk_size as nat);
                lemma_pass_multiset(cl, cr, chunk_size as nat);
                assert(wl =~= Seq::<T>::empty());
                assert(wr =~= Seq::<T>::empty());
                assert(writer_l.written() =~= pass.0);
                assert(writer_r.written() =~= pass.1);
            }
            proof {
                passes = passes + 1;
            }
            chunk_size = chunk_size * 2;
            let new_reader_l = writer_l.into_reader()?;
            let new_reader_r = writer_r.into_reader()?;
            let new_writer_l = reader_l.into_writer()?;
            let new_writer_r = reader_r.into_writer()?;
            reader_l = new_reader_l;
            reader_r = new_reader_r;
            writer_l = new_writer_l;
            writer_r = new_writer_r;
            if chunk_size > total_size / 2 {
                proof {
                    lemma_halves_sorted(
                        reader_l.remaining(),
                        reader_r.remaining(),
                        chunk_size as nat,
                    );
                }
                break ;
            }
        }
        Ok((reader_l, reader_r, writer_l, writer_r))
    }

    /// Sorts the source: splits it into `buffer1` and `buffer2`, runs the doubling
    /// driver with `buffer3` and `buffer4` as the first targets, and merges the two
    /// sorted halves back into the source's own storage, returned as a reader.
    pub fn complete_sort<S>(
        &self,
        unsorted_source: S,
        buffer1: S::Writer,
        buffer2: S::Writer,
        buffer3: S::Writer,
        buffer4: S::Writer,
    ) -> (r: Result<S, SortError>) where S: MergeReader<T>
        requires
            unsorted_source.remaining().len() <= usize::MAX,
            buffer1.written().len() == 0,
            buffer2.written().len() == 0,
            buffer3.written().len() == 0,
            buffer4.written().len() == 0,
        ensures
            r matches Ok(out) ==> {
                &&& sorted(out.remaining())
                &&& out.remaining().to_multiset() == unsorted_source.remaining().to_multiset()
            },
            S::infallible() && <S::Writer as MergeWriter<T>>::infallible() ==> r is Ok,
    {
        let ghost input = unsorted_source.remaining();
        let mut unsorted_source = unsorted_source;
        let mut buffer1 = buffer1;
        let mut buffer2 = buffer2;
        let total_size = self.split(&mut unsorted_source, &mut buffer1, &mut buffer2)?;
        proof {
            lemma_deal(input);
            assert(buffer1.written() =~= deal(input).0);
            assert(buffer2.written() =~= deal(input).1);
        }
        let reader_l = buffer1.into_reader()?;
        let reader_r = buffer2.into_reader()?;
        let (mut reader_l, mut reader_r, _, _) = self.sort(
            reader_l,
            reader_r,
            buffer3,
            buffer4,
            total_size,
        )?;
        let ghost hl = reader_l.remaining();
        let ghost hr = reader_r.remaining();
        let mut sink = unsorted_source.into_writer()?;
        let ghost s0 = sink.written();
        self.merge_step(&mut reader_l, &mut reader_r, &mut sink, total_size)?;
        proof {
            assert(hl.take(hl.len() as int) =~= hl);
            assert(hr.take(hr.len() as int) =~= hr);
            assert(s0 =~= Seq::<T>::empty());
            assert(sink.written() =~= merge_seq(hl, hr));
            lemma_merge_sorted(hl, hr);
            lemma_merge_multiset(hl, hr);
        }
        let out = sink.into_reader()?;
        Ok(out)
    }
}

proof fn lemma_sorted_prefix_extend<T: SortKey>(s: Seq<T>, k: int)
    requires
        0 < k < s.len(),
    ensures
        sorted(s.take(k + 1)) == (sorted(s.take(k)) && s[k - 1].le(s[k])),
{
    let t = s.take(k + 1);
    let p = s.take(k);
    if sorted(t) {
        assert(t[k - 1].le(t[k]));
        assert forall|i: int, j: int| 0 <= i < j < p.len() implies #[trigger] p[i].le(p[j]) by {
            assert(t[i].le(t[j]));
        }
    }
    if sorted(p) && s[k - 1].le(s[k]) {
        assert forall|i: int, j: int| 0 <= i < j < t.len() implies #[trigger] t[i].le(t[j]) by {
            if j < k {
                assert(p[i].le(p[j]));
            } else if i < k - 1 {
                assert(p[i].le(p[k - 1]));
                T::lemma_transitive(s[i], s[k - 1], s[k]);
            }
        }
    }
}

/// Reads the reader to its end and tells whether each element came no later than
/// the next one.
pub fn check_sorted<T: SortKey, S: MergeReader<T>>(reader: &mut S) -> (r: Result<bool, SortError>)
    ensures
        r matches Ok(b) ==> {
            &&& b == sorted(old(reader).remaining())
            &&& final(reader).remaining().len() == 0
        },
        S::infallible() ==> r is Ok,
{
    let ghost s0 = reader.remaining();
    let ghost mut count: int = 0;
    let mut ok = true;
    let mut prev: Option<T> = None;
    let mut exhausted = reader.is_exhausted()?;
    assert(s0.skip(0) =~= s0);
    while !exhausted
        invariant
            0 <= count <= s0.len(),
            reader.remaining() == s0.skip(count),
            exhausted == (count == s0.len()),
            count == 0 <==> prev is None,
            prev matches Some(p) ==> p == s0[count - 1],
            ok == sorted(s0.take(count)),
        decreases s0.len() - count,
    {
        let cur = reader.get()?;
        match prev {
            Some(p) => {
                if !p.less_eq(&cur) {
                    ok = false;
                }
                proof {
                    lemma_sorted_prefix_extend(s0, count);
                }
            },
            None => {},
        }
        prev = Some(cur);
        exhausted = !reader.advance()?;
        assert(s0.skip(count).drop_first() =~= s0.skip(count + 1));
        proof {
            count = count + 1;
        }
    }
    assert(s0.take(count) =~= s0);
    Ok(ok)
}

} // verus!

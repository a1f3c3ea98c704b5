use vstd::prelude::*;

use crate::utils::bytesreader::{ByteSource, BytesReader};
use crate::utils::laws::lemma_split_groups_count;

verus! {

/// Why an ngram operation was refused.
#[derive(Debug, Clone, Copy, PartialEq, Eq, Structural)]
pub enum NgramError {
    /// The group size is zero.
    InvalidConfiguration,
    /// A splitter was handed to a counter of another group size.
    NgramMismatch,
}

/// `part` completed to length `n` with the byte `padding`.
pub open spec fn padded(part: Seq<u8>, n: nat, padding: u8) -> Seq<u8> {
    part + Seq::new((n - part.len()) as nat, |_j: int| padding)
}

/// The consecutive, non-overlapping groups of `n` bytes of `input`; a short
/// trailing group is completed with `padding`.
pub open spec fn split_groups(input: Seq<u8>, n: nat, padding: u8) -> Seq<Seq<u8>>
    decreases input.len(),
{
    if n == 0 || input.len() == 0 {
        Seq::empty()
    } else if input.len() < n {
        seq![padded(input, n, padding)]
    } else {
        seq![input.take(n as int)] + split_groups(input.skip(n as int), n, padding)
    }
}

/// Splits what a byte source holds into groups of `ngram` bytes.
pub struct NGramSpliter<T: ByteSource> {
    reader: T,
    ngram: usize,
    buf: Vec<u8>,
    padding: u8,
}

impl<T: ByteSource> NGramSpliter<T> {
    /// The source is consistent, the group size is positive and the scratch
    /// buffer holds one group.
    pub closed spec fn wf(&self) -> bool {
        &&& self.reader.wf()
        &&& self.ngram >= 1
        &&& self.buf@.len() == self.ngram
    }

    /// The group size.
    pub closed spec fn spec_ngram(&self) -> nat {
        self.ngram as nat
    }

    /// The byte that completes a short trailing group.
    pub closed spec fn padding_byte(&self) -> u8 {
        self.padding
    }

    /// The groups that are still to be produced.
    pub closed spec fn pending(&self) -> Seq<Seq<u8>> {
        split_groups(self.reader.remaining(), self.ngram as nat, self.padding)
    }

    /// A splitter over `reader` with groups of `ngram` bytes, padded with 0.
    pub fn new(reader: T, ngram: usize) -> (r: Result<Self, NgramError>)
        requires
            reader.wf(),
        ensures
            ngram == 0 ==> r == Err::<Self, NgramError>(NgramError::InvalidConfiguration),
            ngram >= 1 ==> r is Ok,
            r matches Ok(s) ==> {
                &&& s.wf()
                &&& s.spec_ngram() == ngram
                &&& s.padding_byte() == 0
                &&& s.pending() == split_groups(reader.remaining(), ngram as nat, 0)
            },
    {
        Self::with_padding(reader, ngram, 0)
    }

    /// A splitter over `reader` with groups of `ngram` bytes; a short trailing
    /// group is completed with `padding`.
    pub fn with_padding(reader: T, ngram: usize, padding: u8) -> (r: Result<Self, NgramError>)
        requires
            reader.wf(),
        ensures
            ngram == 0 ==> r == Err::<Self, NgramError>(NgramError::InvalidConfiguration),
            ngram >= 1 ==> r is Ok,
            r matches Ok(s) ==> {
                &&& s.wf()
                &&& s.spec_ngram() == ngram
                &&& s.padding_byte() == padding
                &&& s.pending() == split_groups(reader.remaining(), ngram as nat, padding)
            },
    {
        if ngram == 0 {
            return Err(NgramError::InvalidConfiguration);
        }
        let mut buf: Vec<u8> = Vec::new();
        while buf.len() < ngram
            invariant
                buf@.len() <= ngram,
            decreases ngram - buf@.len(),
        {
            buf.push(0);
        }
        Ok(NGramSpliter { reader, ngram, buf, padding })
    }

    /// The group size.
    pub fn ngram(&self) -> (r: usize)
        ensures
            r == self.spec_ngram(),
    {
        self.ngram
    }

    /// Produces the next group, or `None` once the source is exhausted.
    pub fn next(&mut self) -> (r: Option<Vec<u8>>)
        requires
            old(self).wf(),
        ensures
            final(self).wf(),
            final(self).spec_ngram() == old(self).spec_ngram(),
            final(self).padding_byte() == old(self).padding_byte(),
            old(self).pending().len() == 0 ==> r is None && final(self).pending().len() == 0,
            old(self).pending().len() > 0 ==> {
                &&& r matches Some(g) && g@ == old(self).pending()[0] && g@.len()
                    == old(self).spec_ngram()
                &&& final(self).pending() == old(self).pending().drop_first()
            },
    {
        let ghost rem = self.reader.remaining();
        let n = self.reader.read(self.buf.as_mut_slice());
        if n == 0 {
            assert(rem.len() == 0);
            assert(self.reader.remaining() =~= rem);
            return None;
        }
        let ghost reader_now = self.reader;
        let mut k: usize = n;
        while k < self.ngram
            invariant
                self.reader == reader_now,
                self.ngram == old(self).ngram,
                self.padding == old(self).padding,
                self.buf@.len() == self.ngram,
                n <= k <= self.ngram,
                self.buf@.take(n as int) == rem.take(n as int),
                forall|j: int| n <= j < k ==> self.buf@[j] == self.padding,
            decreases self.ngram - k,
        {
            self.buf[k] = self.padding;
            k += 1;
            assert(self.buf@.take(n as int) =~= rem.take(n as int));
        }
        let g = self.buf.clone();
        assert(g@ =~= self.buf@);
        if n < self.ngram {
            assert(rem.take(n as int) =~= rem);
            assert(self.buf@ =~= padded(rem, self.ngram as nat, self.padding));
            assert(self.reader.remaining().len() == 0);
        } else {
            assert(self.buf@ =~= rem.take(n as int));
        }
        Some(g)
    }
}


/// How many times `g` occurs in `gs`.
pub open spec fn occurrences(gs: Seq<Seq<u8>>, g: Seq<u8>) -> nat
    decreases gs.len(),
{
    if gs.len() == 0 {
        0
    } else {
        occurrences(gs.drop_last(), g) + if gs.last() == g {
            1nat
        } else {
            0nat
        }
    }
}

/// The number of occurrences of each group of `gs` that occurs at all.
pub open spec fn tally(gs: Seq<Seq<u8>>) -> Map<Seq<u8>, nat> {
    Map::new(|g: Seq<u8>| occurrences(gs, g) > 0, |g: Seq<u8>| occurrences(gs, g))
}

/// The distinct groups of `gs`, in the order in which each first occurs.
pub open spec fn first_occurrences(gs: Seq<Seq<u8>>) -> Seq<Seq<u8>>
    decreases gs.len(),
{
    if gs.len() == 0 {
        Seq::empty()
    } else {
        let d = first_occurrences(gs.drop_last());
        if d.contains(gs.last()) {
            d
        } else {
            d.push(gs.last())
        }
    }
}

/// The sum of the counts of a list of entries.
pub open spec fn total_count(es: Seq<(Vec<u8>, usize)>) -> nat
    decreases es.len(),
{
    if es.len() == 0 {
        0
    } else {
        total_count(es.drop_last()) + es.last().1 as nat
    }
}

/// `es` lists each key of `m` exactly once, with its count.
pub open spec fn lists_exactly(es: Seq<(Vec<u8>, usize)>, m: Map<Seq<u8>, nat>) -> bool {
    &&& forall|i: int| 0 <= i < es.len() ==> #[trigger] m.contains_key(es[i].0@) && m[es[i].0@]
        == es[i].1
    &&& forall|i: int, j: int| 0 <= i < j < es.len() ==> es[i].0@ != es[j].0@
    &&& forall|g: Seq<u8>| #[trigger] m.contains_key(g) ==> exists|i: int|
        0 <= i < es.len() && es[i].0@ == g
}

proof fn lemma_occurrences_push(gs: Seq<Seq<u8>>, x: Seq<u8>, g: Seq<u8>)
    ensures
        occurrences(gs.push(x), g) == occurrences(gs, g) + if x == g {
            1nat
        } else {
            0nat
        },
{
    assert(gs.push(x).drop_last() =~= gs);
}

proof fn lemma_occurrences_bound(gs: Seq<Seq<u8>>, g: Seq<u8>)
    ensures
        occurrences(gs, g) <= gs.len(),
    decreases gs.len(),
{
    if gs.len() > 0 {
        lemma_occurrences_bound(gs.drop_last(), g);
    }
}

proof fn lemma_total_count_update(es: Seq<(Vec<u8>, usize)>, i: int, e: (Vec<u8>, usize))
    requires
        0 <= i < es.len(),
    ensures
        total_count(es.update(i, e)) + es[i].1 == total_count(es) + e.1,
    decreases es.len(),
{
    if i < es.len() - 1 {
        assert(es.update(i, e).drop_last() =~= es.drop_last().update(i, e));
        lemma_total_count_update(es.drop_last(), i, e);
    } else {
        assert(es.update(i, e).drop_last() =~= es.drop_last());
    }
}

/// Whether two byte vectors hold the same bytes.
fn same_bytes(a: &Vec<u8>, b: &Vec<u8>) -> (r: bool)
    ensures
        r == (a@ == b@),
{
    if a.len() != b.len() {
        return false;
    }
    let mut i: usize = 0;
    while i < a.len()
        invariant
            a@.len() == b@.len(),
            i <= a@.len(),
            forall|j: int| 0 <= j < i ==> a@[j] == b@[j],
        decreases a@.len() - i,
    {
        if a[i] != b[i] {
            return false;
        }
        i += 1;
    }
    assert(a@ =~= b@);
    true
}

/// Counts the occurrences of each group of `ngram` bytes over one or more inputs.
pub struct NgramCounter {
    ngram: usize,
    count: Vec<(Vec<u8>, usize)>,
    size: usize,
    drained: Ghost<Seq<Seq<u8>>>,
}

impl View for NgramCounter {
    type V = Map<Seq<u8>, nat>;

    /// Each group counted so far, with its number of occurrences.
    open spec fn view(&self) -> Map<Seq<u8>, nat> {
        tally(self.drained())
    }
}

impl NgramCounter {
    /// The entries list each distinct counted group once, in order of first
    /// occurrence, with its number of occurrences, and the total is the number
    /// of groups counted.
    pub closed spec fn wf(&self) -> bool {
        &&& self.ngram >= 1
        &&& self.size == self.drained@.len()
        &&& total_count(self.count@) == self.size
        &&& forall|i: int|
            0 <= i < self.count@.len() ==> {
                &&& (#[trigger] self.count@[i]).0@.len() == self.ngram
                &&& self.count@[i].1 == occurrences(self.drained@, self.count@[i].0@)
                &&& self.count@[i].1 >= 1
            }
        &&& forall|i: int, j: int|
            0 <= i < j < self.count@.len() ==> self.count@[i].0@ != self.count@[j].0@
        &&& forall|g: Seq<u8>| #[trigger]
            occurrences(self.drained@, g) > 0 ==> exists|i: int|
                0 <= i < self.count@.len() && self.count@[i].0@ == g
        &&& self.count@.len() == first_occurrences(self.drained@).len()
        &&& forall|i: int|
            0 <= i < self.count@.len() ==> (#[trigger] self.count@[i]).0@ == first_occurrences(
                self.drained@,
            )[i]
    }

    /// The group size.
    pub closed spec fn spec_ngram(&self) -> nat {
        self.ngram as nat
    }

    /// Every group counted so far, in the order in which it was counted.
    pub closed spec fn drained(&self) -> Seq<Seq<u8>> {
        self.drained@
    }

    /// The distinct groups with their counts.
    pub closed spec fn entries(&self) -> Seq<(Vec<u8>, usize)> {
        self.count@
    }

    /// The entries of a counter list each of its groups once, with its count,
    /// in the order in which the groups first occurred.
    pub proof fn lemma_entries_list_view(&self)
        requires
            self.wf(),
        ensures
            lists_exactly(self.entries(), self@),
            self.entries().len() == first_occurrences(self.drained()).len(),
            forall|i: int|
                0 <= i < self.entries().len() ==> (#[trigger] self.entries()[i]).0@
                    == first_occurrences(self.drained())[i] && self.entries()[i].1 == self@[
                    first_occurrences(self.drained())[i]],
    {
    }

    fn empty(ngram: usize) -> (r: Self)
        requires
            ngram >= 1,
        ensures
            r.wf(),
            r.spec_ngram() == ngram,
            r.drained() == Seq::<Seq<u8>>::empty(),
    {
        NgramCounter { ngram, count: Vec::new(), size: 0, drained: Ghost(Seq::empty()) }
    }

    /// An empty counter for groups of `ngram` bytes.
    pub fn new(ngram: usize) -> (r: Result<Self, NgramError>)
        ensures
            ngram == 0 ==> r == Err::<Self, NgramError>(NgramError::InvalidConfiguration),
            ngram >= 1 ==> r is Ok,
            r matches Ok(c) ==> {
                &&& c.wf()
                &&& c.spec_ngram() == ngram
                &&& c.drained() == Seq::<Seq<u8>>::empty()
            },
    {
        if ngram == 0 {
            Err(NgramError::InvalidConfiguration)
        } else {
            Ok(Self::empty(ngram))
        }
    }

    /// Where `g` stands among the entries, if it does.
    fn find(&self, g: &Vec<u8>) -> (r: Option<usize>)
        ensures
            r matches Some(i) ==> i < self.count@.len() && self.count@[i as int].0@ == g@,
            r is None ==> forall|i: int| 0 <= i < self.count@.len() ==> self.count@[i].0@ != g@,
    {
        let mut i: usize = 0;
        while i < self.count.len()
            invariant
                i <= self.count@.len(),
                forall|j: int| 0 <= j < i ==> self.count@[j].0@ != g@,
            decreases self.count@.len() - i,
        {
            if same_bytes(&self.count[i].0, g) {
                return Some(i);
            }
            i += 1;
        }
        None
    }

    /// Counts one more occurrence of `g`.
    fn add_group(&mut self, g: Vec<u8>)
        requires
            old(self).wf(),
            g@.len() == old(self).ngram,
            old(self).size < usize::MAX,
        ensures
            final(self).wf(),
            final(self).ngram == old(self).ngram,
            final(self).drained() == old(self).drained().push(g@),
    {
        let ghost old_drained = self.drained@;
        let ghost new_drained = old_drained.push(g@);
        assert forall|h: Seq<u8>|
            occurrences(new_drained, h) == occurrences(old_drained, h) + if g@ == h {
                1nat
            } else {
                0nat
            } by {
            lemma_occurrences_push(old_drained, g@, h);
        }
        match self.find(&g) {
            Some(i) => {
                proof {
                    lemma_occurrences_bound(old_drained, g@);
                }
                let ghost old_count = self.count@;
                let c = self.count[i].1;
                self.count[i].1 = c + 1;
                proof {
                    lemma_total_count_update(old_count, i as int, self.count@[i as int]);
                }
                assert forall|h: Seq<u8>| #[trigger]
                    occurrences(new_drained, h) > 0 implies exists|k: int|
                        0 <= k < self.count@.len() && self.count@[k].0@ == h by {
                    if h != g@ {
                        let k = choose|k: int| 0 <= k < old_count.len() && old_count[k].0@ == h;
                        assert(self.count@[k].0@ == h);
                    } else {
                        assert(self.count@[i as int].0@ == h);
                    }
                }
                assert(new_drained.drop_last() =~= old_drained);
                assert(first_occurrences(old_drained)[i as int] == g@);
                assert(first_occurrences(new_drained) == first_occurrences(old_drained));
            },
            None => {
                let ghost old_count = self.count@;
                self.count.push((g, 1));
                assert(self.count@.drop_last() =~= old_count);
                assert forall|h: Seq<u8>| #[trigger]
                    occurrences(new_drained, h) > 0 implies exists|k: int|
                        0 <= k < self.count@.len() && self.count@[k].0@ == h by {
                    if h != g@ {
                        let k = choose|k: int| 0 <= k < old_count.len() && old_count[k].0@ == h;
                        assert(self.count@[k].0@ == h);
                    } else {
                        assert(self.count@[old_count.len() as int].0@ == h);
                    }
                }
                assert(new_drained.drop_last() =~= old_drained);
                assert(!first_occurrences(old_drained).contains(g@)) by {
                    if first_occurrences(old_drained).contains(g@) {
                        let k = choose|k: int|
                            0 <= k < first_occurrences(old_drained).len()
                                && first_occurrences(old_drained)[k] == g@;
                        assert(old_count[k].0@ == g@);
                    }
                }
                assert(first_occurrences(new_drained) == first_occurrences(old_drained).push(g@));
            },
        }
        self.size = self.size + 1;
        self.drained = Ghost(new_drained);
    }

    /// Counts every group that `spliter` produces, provided that it splits
    /// into groups of this counter's size; otherwise counts nothing.
    pub fn append<R: ByteSource>(&mut self, spliter: NGramSpliter<R>) -> (r: Result<(), NgramError>)
        requires
            old(self).wf(),
            spliter.wf(),
            spliter.spec_ngram() == old(self).spec_ngram() ==> old(self).drained().len()
                + spliter.pending().len() <= usize::MAX,
        ensures
            final(self).wf(),
            final(self).spec_ngram() == old(self).spec_ngram(),
            spliter.spec_ngram() != old(self).spec_ngram() ==> {
                &&& r == Err::<(), NgramError>(NgramError::NgramMismatch)
                &&& final(self).drained() == old(self).drained()
            },
            spliter.spec_ngram() == old(self).spec_ngram() ==> {
                &&& r is Ok
                &&& final(self).drained() == old(self).drained() + spliter.pending()
            },
    {
        if spliter.ngram() != self.ngram {
            return Err(NgramError::NgramMismatch);
        }
        let ghost start = self.drained@;
        let ghost all = spliter.pending();
        let mut sp = spliter;
        loop
            invariant
                self.wf(),
                sp.wf(),
                sp.spec_ngram() == self.ngram,
                self.ngram == old(self).ngram,
                self.drained@ + sp.pending() == start + all,
                self.size + sp.pending().len() <= usize::MAX,
            ensures
                self.wf(),
                self.ngram == old(self).ngram,
                self.drained@ == start + all,
            decreases sp.pending().len(),
        {
            let ghost before = sp.pending();
            match sp.next() {
                None => {
                    assert(self.drained@ + sp.pending() =~= self.drained@);
                    break ;
                },
                Some(g) => {
                    let ghost d = self.drained@;
                    self.add_group(g);
                    assert(d + before =~= d.push(before[0]) + before.drop_first());
                },
            }
        }
        Ok(())
    }

    /// A counter of the groups that `spliter` produces, of the splitter's size.
    pub fn from_spliter<R: ByteSource>(spliter: NGramSpliter<R>) -> (r: Self)
        requires
            spliter.wf(),
            spliter.pending().len() <= usize::MAX,
        ensures
            r.wf(),
            r.spec_ngram() == spliter.spec_ngram(),
            r.drained() == spliter.pending(),
    {
        let mut counter = Self::empty(spliter.ngram());
        let _ = counter.append(spliter);
        assert(counter.drained@ =~= spliter.pending());
        counter
    }

    /// A counter of the groups of `ngram` bytes of what `reader` holds, the
    /// last one padded with 0.
    pub fn from_read<R: ByteSource>(reader: R, ngram: usize) -> (r: Result<Self, NgramError>)
        requires
            reader.wf(),
            reader.remaining().len() <= usize::MAX,
        ensures
            ngram == 0 ==> r == Err::<Self, NgramError>(NgramError::InvalidConfiguration),
            ngram >= 1 ==> r is Ok,
            r matches Ok(c) ==> {
                &&& c.wf()
                &&& c.spec_ngram() == ngram
                &&& c.drained() == split_groups(reader.remaining(), ngram as nat, 0)
            },
    {
        let ghost input = reader.remaining();
        match NGramSpliter::new(reader, ngram) {
            Ok(spliter) => {
                proof {
                    lemma_split_groups_count(input, ngram as nat, 0);
                }
                Ok(Self::from_spliter(spliter))
            },
            Err(e) => Err(e),
        }
    }

    /// A counter of the groups of `ngram` bytes of `bytes`, the last one padded
    /// with 0.
    pub fn from_bytes(bytes: &[u8], ngram: usize) -> (r: Result<Self, NgramError>)
        ensures
            ngram == 0 ==> r == Err::<Self, NgramError>(NgramError::InvalidConfiguration),
            ngram >= 1 ==> r is Ok,
            r matches Ok(c) ==> {
                &&& c.wf()
                &&& c.spec_ngram() == ngram
                &&& c.drained() == split_groups(bytes@, ngram as nat, 0)
                &&& c@ == tally(split_groups(bytes@, ngram as nat, 0))
            },
    {
        let br = BytesReader::new(bytes);
        Self::from_read(br, ngram)
    }

    /// Counts the groups of this counter's size of what `reader` holds.
    pub fn append_read<R: ByteSource>(&mut self, reader: R)
        requires
            old(self).wf(),
            reader.wf(),
            old(self).drained().len() + split_groups(
                reader.remaining(),
                old(self).spec_ngram(),
                0,
            ).len() <= usize::MAX,
        ensures
            final(self).wf(),
            final(self).spec_ngram() == old(self).spec_ngram(),
            final(self).drained() == old(self).drained() + split_groups(
                reader.remaining(),
                old(self).spec_ngram(),
                0,
            ),
    {
        match NGramSpliter::new(reader, self.ngram) {
            Ok(spliter) => {
                let _ = self.append(spliter);
            },
            Err(_) => {},
        }
    }

    /// Counts the groups of this counter's size of `bytes`.
    pub fn append_bytes(&mut self, bytes: &[u8])
        requires
            old(self).wf(),
            old(self).drained().len() + split_groups(bytes@, old(self).spec_ngram(), 0).len()
                <= usize::MAX,
        ensures
            final(self).wf(),
            final(self).spec_ngram() == old(self).spec_ngram(),
            final(self).drained() == old(self).drained() + split_groups(
                bytes@,
                old(self).spec_ngram(),
                0,
            ),
            final(self)@ == tally(old(self).drained() + split_groups(
                bytes@,
                old(self).spec_ngram(),
                0,
            )),
    {
        let br = BytesReader::new(bytes);
        self.append_read(br)
    }

    /// The distinct groups counted so far, each with its number of occurrences.
    pub fn count(&self) -> (r: &Vec<(Vec<u8>, usize)>)
        requires
            self.wf(),
        ensures
            r@ == self.entries(),
            lists_exactly(r@, self@),
    {
        &self.count
    }

    /// The distinct groups counted so far, each with its number of occurrences.
    pub fn count_owned(self) -> (r: Vec<(Vec<u8>, usize)>)
        requires
            self.wf(),
        ensures
            r@ == self.entries(),
            lists_exactly(r@, self@),
    {
        self.count
    }

    /// The number of groups counted so far.
    pub fn size(&self) -> (r: usize)
        requires
            self.wf(),
        ensures
            r == self.drained().len(),
    {
        self.size
    }

    /// The group size.
    pub fn ngram(&self) -> (r: usize)
        ensures
            r == self.spec_ngram(),
    {
        self.ngram
    }

    /// The counter as a record of its group size, its entries and its total.
    pub fn to_json(self) -> (r: JsonNgramCounter)
        requires
            self.wf(),
        ensures
            r.ngram == self.spec_ngram(),
            r.count@ == self.entries(),
            lists_exactly(r.count@, self@),
            r.size == self.drained().len(),
    {
        JsonNgramCounter::new(self)
    }

    /// The counts of a counter add up to the number of groups it has counted.
    pub proof fn lemma_counts_sum_to_size(&self)
        requires
            self.wf(),
        ensures
            total_count(self.entries()) == self.drained().len(),
    {
    }
}

/// A counter laid out for reporting: its group size, each distinct group with
/// its count, and the total number of groups.
pub struct JsonNgramCounter {
    pub ngram: usize,
    pub count: Vec<(Vec<u8>, usize)>,
    pub size: usize,
}

impl JsonNgramCounter {
    /// The record of `counter`.
    pub fn new(counter: NgramCounter) -> (r: Self)
        requires
            counter.wf(),
        ensures
            r.ngram == counter.spec_ngram(),
            r.count@ == counter.entries(),
            lists_exactly(r.count@, counter@),
            r.size == counter.drained().len(),
    {
        let ngram = counter.ngram();
        let size = counter.size();
        let count = counter.count_owned();
        JsonNgramCounter { ngram, count, size }
    }
}

} // verus!

use vstd::prelude::*;

verus! {

/// The chunks of `data` of width `w`: every chunk holds exactly `w` bytes
/// but the last, which holds what is left. A width of zero yields no chunks.
pub open spec fn chunks_of(data: Seq<u8>, w: nat) -> Seq<Seq<u8>>
    decreases data.len(),
{
    if w == 0 || data.len() == 0 {
        Seq::empty()
    } else {
        let k: int = if data.len() < w { data.len() as int } else { w as int };
        seq![data.take(k)] + chunks_of(data.skip(k), w)
    }
}

/// There are never more chunks than bytes.
pub proof fn lemma_chunk_count(data: Seq<u8>, w: nat)
    ensures
        chunks_of(data, w).len() <= data.len(),
    decreases data.len(),
{
    if w > 0 && data.len() > 0 {
        let k: int = if data.len() < w { data.len() as int } else { w as int };
        lemma_chunk_count(data.skip(k), w);
    }
}

/// Chunking loses nothing and adds nothing: concatenating the chunks gives
/// back the input, every chunk but the last holds exactly `w` bytes, the last
/// holds `n % w` bytes (or `w` when `w` divides `n`), and an empty input has
/// no chunks at all.
pub proof fn lemma_chunking_complete(data: Seq<u8>, w: nat)
    requires
        w > 0,
    ensures
        chunks_of(data, w).flatten() == data,
        (chunks_of(data, w).len() == 0) == (data.len() == 0),
        forall|i: int|
            0 <= i < chunks_of(data, w).len() - 1 ==> (#[trigger] chunks_of(data, w)[i]).len()
                == w,
        data.len() > 0 ==> chunks_of(data, w).last().len() == (if data.len() % w == 0 {
            w as int
        } else {
            (data.len() % w) as int
        }),
    decreases data.len(),
{
    let cs = chunks_of(data, w);
    if data.len() > 0 {
        let k: int = if data.len() < w { data.len() as int } else { w as int };
        let rest = data.skip(k);
        lemma_chunking_complete(rest, w);
        let tail = chunks_of(rest, w);
        assert(cs.drop_first() =~= tail);
        assert(data.take(k) + rest =~= data);
        if rest.len() == 0 {
            assert(cs.len() == 1);
            assert(data.len() <= w);
            if data.len() == w {
                vstd::arithmetic::div_mod::lemma_mod_self_0(w as int);
            } else {
                vstd::arithmetic::div_mod::lemma_small_mod(data.len(), w);
            }
        } else {
            assert(cs.last() == tail.last());
            assert(data.len() == rest.len() + w);
            vstd::arithmetic::div_mod::lemma_mod_add_multiples_vanish(rest.len() as int, w as int);
            assert forall|i: int| 0 <= i < cs.len() - 1 implies (#[trigger] cs[i]).len() == w by {
                if i > 0 {
                    assert(cs[i] == tail[i - 1]);
                }
            }
        }
    }
}

/// Splits a byte buffer into consecutive fixed-width symbols.
pub struct FileChunker {
    data: Vec<u8>,
    pos: usize,
    word_chunksize: usize,
}

impl View for FileChunker {
    /// The chunks that are still to come.
    type V = Seq<Seq<u8>>;

    closed spec fn view(&self) -> Seq<Seq<u8>> {
        chunks_of(self.data@.skip(self.pos as int), self.word_chunksize as nat)
    }
}

impl FileChunker {
    #[verifier::type_invariant]
    spec fn inv(&self) -> bool {
        self.pos <= self.data.len()
    }

    pub fn new(reader: Vec<u8>, word_chunksize: usize) -> (r: FileChunker)
        ensures
            r@ == chunks_of(reader@, word_chunksize as nat),
    {
        let r = FileChunker { data: reader, pos: 0, word_chunksize };
        proof {
            assert(r.data@.skip(0) =~= r.data@);
        }
        r
    }

    /// The next chunk, or `None` once the buffer is exhausted.
    pub fn next(&mut self) -> (r: Option<Vec<u8>>)
        ensures
            match r {
                None => old(self)@.len() == 0 && final(self)@ == old(self)@,
                Some(c) => old(self)@.len() > 0 && c@ == old(self)@[0] && final(self)@
                    == old(self)@.drop_first(),
            },
    {
        proof {
            use_type_invariant(&*self);
        }
        let n = self.data.len();
        if self.word_chunksize == 0 || self.pos == n {
            return None;
        }
        let end: usize = if n - self.pos < self.word_chunksize {
            n
        } else {
            self.pos + self.word_chunksize
        };
        let mut contents: Vec<u8> = Vec::with_capacity(self.word_chunksize);
        let mut i: usize = self.pos;
        while i < end
            invariant
                self.pos <= i <= end <= n == self.data.len(),
                contents@ =~= self.data@.subrange(self.pos as int, i as int),
            decreases end - i,
        {
            contents.push(self.data[i]);
            i += 1;
        }
        proof {
            let rest = self.data@.skip(self.pos as int);
            let k = (end - self.pos) as int;
            assert(rest.take(k) =~= contents@);
            assert(rest.skip(k) =~= self.data@.skip(end as int));
        }
        self.pos = end;
        Some(contents)
    }
}

} // verus!

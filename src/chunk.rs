use vstd::prelude::*;

verus! {

/// The number of bytes the reader asks for at a time.
pub const BLOCK_SIZE: usize = 4096;

/// Why a block of input could not become a chunk.
#[derive(Clone, Copy, Debug, PartialEq, Eq, Structural)]
pub enum ChunkError {
    /// The block holds no newline: one line is longer than a block.
    NoNewline,
    /// The complete lines of the block are not UTF-8 text.
    Encoding,
}

/// The length of the prefix of `s[..n]` that ends with its last newline, or 0
/// where `s[..n]` holds none.
pub open spec fn complete_len(s: Seq<u8>, n: nat) -> nat
    decreases n,
{
    if n == 0 {
        0
    } else if s[n - 1] == 10u8 {
        n
    } else {
        complete_len(s, (n - 1) as nat)
    }
}

pub open spec fn has_newline(s: Seq<u8>) -> bool {
    exists|j: int| 0 <= j < s.len() && s[j] == 10u8
}

proof fn lemma_complete_len(s: Seq<u8>, n: nat)
    requires
        n <= s.len(),
    ensures
        complete_len(s, n) <= n,
        complete_len(s, n) == 0 <==> !has_newline(s.subrange(0, n as int)),
        complete_len(s, n) > 0 ==> s[complete_len(s, n) - 1] == 10u8,
        forall|j: int| complete_len(s, n) <= j < n ==> s[j] != 10u8,
    decreases n,
{
    if n > 0 {
        lemma_complete_len(s, (n - 1) as nat);
        let sub = s.subrange(0, n as int);
        let sub1 = s.subrange(0, n - 1);
        if s[n - 1] == 10u8 {
            assert(sub[n - 1] == 10u8);
        } else {
            if has_newline(sub) {
                let j = choose|j: int| 0 <= j < sub.len() && sub[j] == 10u8;
                assert(sub1[j] == 10u8);
            }
            if has_newline(sub1) {
                let j = choose|j: int| 0 <= j < sub1.len() && sub1[j] == 10u8;
                assert(sub[j] == 10u8);
            }
        }
    } else {
        assert(!has_newline(s.subrange(0, 0)));
    }
}

/// Relies on std::str::from_utf8: it accepts exactly the well-formed UTF-8
/// byte sequences.
#[verifier::external_body]
fn is_utf8(b: &[u8]) -> (r: bool)
    ensures
        r == vstd::utf8::valid_utf8(b@),
{
    std::str::from_utf8(b).is_ok()
}

/// A block of input cut after its last newline: `raw_data[..size]` are
/// complete lines.
pub struct StrBuffer {
    pub raw_data: Vec<u8>,
    pub size: usize,
}

impl StrBuffer {
    /// The complete lines the chunk holds.
    pub open spec fn text(&self) -> Seq<u8> {
        self.raw_data@.subrange(0, self.size as int)
    }

    /// The lines are complete: the text is not empty and ends with a newline.
    pub open spec fn wf(&self) -> bool {
        &&& 0 < self.size <= self.raw_data@.len()
        &&& self.raw_data@[self.size - 1] == 10u8
    }

    /// The complete lines the chunk holds.
    pub fn as_bytes(&self) -> (r: &[u8])
        requires
            self.wf(),
        ensures
            r@ == self.text(),
    {
        vstd::slice::slice_subrange(self.raw_data.as_slice(), 0, self.size)
    }

    /// The number of bytes of complete lines.
    pub fn len(&self) -> (r: usize)
        ensures
            r == self.size,
    {
        self.size
    }

    /// The chunk that `full_size` bytes read into `raw_data` make: cut after
    /// the last newline, together with the number of bytes read past that
    /// point, which the next read must take again. `None` where nothing was
    /// read.
    pub fn from_block(raw_data: Vec<u8>, full_size: usize) -> (r: Result<
        Option<(StrBuffer, usize)>,
        ChunkError,
    >)
        requires
            full_size <= raw_data@.len(),
        ensures
            full_size == 0 ==> r == Ok::<Option<(StrBuffer, usize)>, ChunkError>(None),
            full_size > 0 && !has_newline(raw_data@.subrange(0, full_size as int)) ==> r
                == Err::<Option<(StrBuffer, usize)>, ChunkError>(ChunkError::NoNewline),
            full_size > 0 && has_newline(raw_data@.subrange(0, full_size as int)) ==> {
                let n = complete_len(raw_data@, full_size as nat);
                if vstd::utf8::valid_utf8(raw_data@.subrange(0, n as int)) {
                    r matches Ok(Some((c, back))) && c.wf() && c.raw_data@ == raw_data@ && c.size
                        == n && back == full_size - n
                } else {
                    r == Err::<Option<(StrBuffer, usize)>, ChunkError>(ChunkError::Encoding)
                }
            },
    {
        if full_size == 0 {
            return Ok(None);
        }
        let mut k: usize = full_size;
        while k > 0 && raw_data[k - 1] != 10u8
            invariant
                k <= full_size <= raw_data@.len(),
                complete_len(raw_data@, k as nat) == complete_len(raw_data@, full_size as nat),
            decreases k,
        {
            k = k - 1;
        }
        proof {
            lemma_complete_len(raw_data@, full_size as nat);
        }
        if k == 0 {
            return Err(ChunkError::NoNewline);
        }
        let valid = is_utf8(vstd::slice::slice_subrange(raw_data.as_slice(), 0, k));
        if !valid {
            return Err(ChunkError::Encoding);
        }
        Ok(Some((StrBuffer { raw_data, size: k }, full_size - k)))
    }
}

/// The bytes of the chunks `cs`, one after another.
pub open spec fn concat_texts(cs: Seq<StrBuffer>) -> Seq<u8>
    decreases cs.len(),
{
    if cs.len() == 0 {
        Seq::empty()
    } else {
        concat_texts(cs.drop_last()) + cs.last().text()
    }
}

/// Every line of `data`, its newline included, fits in `block` bytes, and the
/// last line ends with a newline.
pub open spec fn line_start(data: Seq<u8>, i: int) -> bool {
    i == 0 || data[i - 1] == 10u8
}

pub open spec fn lines_fit(data: Seq<u8>, block: nat) -> bool {
    forall|i: int|
        0 <= i < data.len() && #[trigger] line_start(data, i) ==> exists|j: int|
            i <= j < i + block && j < data.len() && #[trigger] data[j] == 10u8
}

/// Some run of complete lines of `data` is not UTF-8 text.
pub open spec fn bad_text(data: Seq<u8>) -> bool {
    exists|p: int, q: int|
        0 <= p < q <= data.len() && line_start(data, p) && data[q - 1] == 10u8
            && !vstd::utf8::valid_utf8(#[trigger] data.subrange(p, q))
}

/// Cuts `data` into chunks as the reader does when it asks for `block` bytes
/// at a time: each read starts right after the last newline of the one before.
pub fn split_chunks(data: &[u8], block: usize) -> (r: Result<Vec<StrBuffer>, ChunkError>)
    requires
        block > 0,
    ensures
        r matches Ok(cs) ==> concat_texts(cs@) == data@,
        r matches Ok(cs) ==> forall|i: int|
            0 <= i < cs@.len() ==> (#[trigger] cs@[i]).wf() && cs@[i].text().len() <= block
                && cs@[i].text().last() == 10u8,
        lines_fit(data@, block as nat) ==> r is Ok || r == Err::<Vec<StrBuffer>, ChunkError>(
            ChunkError::Encoding,
        ),
        r == Err::<Vec<StrBuffer>, ChunkError>(ChunkError::Encoding) ==> bad_text(data@),
{
    let n = data.len();
    let mut pos: usize = 0;
    let mut out: Vec<StrBuffer> = Vec::new();
    assert(data@.subrange(0, 0) =~= Seq::<u8>::empty());
    while pos < n
        invariant
            n == data@.len(),
            block > 0,
            pos <= n,
            pos == 0 || data@[pos - 1] == 10u8,
            concat_texts(out@) == data@.subrange(0, pos as int),
            forall|i: int|
                0 <= i < out@.len() ==> (#[trigger] out@[i]).wf() && out@[i].text().len() <= block
                    && out@[i].text().last() == 10u8,
        decreases n - pos,
    {
        let end = if n - pos > block {
            pos + block
        } else {
            n
        };
        let full = end - pos;
        let blk = vstd::slice::slice_to_vec(vstd::slice::slice_subrange(data, pos, end));
        let ghost b = blk@;
        assert(b.subrange(0, full as int) =~= b);
        match StrBuffer::from_block(blk, full) {
            Err(e) => {
                proof {
                    if e == ChunkError::Encoding {
                        lemma_complete_len(b, full as nat);
                        let q = complete_len(b, full as nat) as int;
                        assert(b.subrange(0, q) =~= data@.subrange(pos as int, pos + q));
                        assert(data@[pos + q - 1] == b[q - 1]);
                        assert(line_start(data@, pos as int));
                        assert(!vstd::utf8::valid_utf8(data@.subrange(pos as int, pos + q)));
                    }
                    if lines_fit(data@, block as nat) {
                        assert(line_start(data@, pos as int));
                        let j = choose|j: int|
                            pos <= j < pos + block && j < data@.len() && #[trigger] data@[j]
                                == 10u8;
                        assert(b[j - pos] == 10u8);
                        assert(has_newline(b));
                    }
                }
                return Err(e);
            },
            Ok(None) => {
                return Ok(out);
            },
            Ok(Some((c, _back))) => {
                proof {
                    lemma_complete_len(b, full as nat);
                    assert(c.text() =~= data@.subrange(pos as int, pos + c.size));
                    assert(c.text().last() == b[c.size - 1]);
                    let out2 = out@.push(c);
                    assert(out2.drop_last() =~= out@);
                    assert(data@.subrange(0, pos + c.size) =~= data@.subrange(0, pos as int)
                        + c.text());
                }
                pos = pos + c.size;
                out.push(c);
            },
        }
    }
    assert(data@.subrange(0, n as int) =~= data@);
    Ok(out)
}

} // verus!

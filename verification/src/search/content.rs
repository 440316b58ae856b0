//! Looking for text inside files.
//!
//! Files are read a chunk at a time and never held whole, so searching a
//! folder of huge logs costs a fixed amount of memory. The price of that is
//! having to be careful at the seams: a match can straddle two chunks, so each
//! chunk keeps the tail of the one before it. [`scan_chunk`] is one such step;
//! whoever reads the file calls it once per chunk.
use vstd::prelude::*;
use vstd::utf8::*;

verus! {

/// How much is read at a time.
pub const CHUNK: usize = 65536;

/// ASCII lowercasing of one byte.
pub open spec fn lower_byte(b: u8) -> u8 {
    if 65 <= b <= 90 {
        (b + 32) as u8
    } else {
        b
    }
}

pub open spec fn lower_bytes(s: Seq<u8>) -> Seq<u8> {
    s.map_values(|b: u8| lower_byte(b))
}

/// What a needle holds.
pub struct NeedleV {
    pub bytes: Seq<u8>,
    pub case_sensitive: bool,
}

/// The needle's bytes match `h` at position `i`: exactly, or ignoring ASCII case.
pub open spec fn matches_at(n: NeedleV, h: Seq<u8>, i: int) -> bool {
    &&& 0 <= i
    &&& i + n.bytes.len() <= h.len()
    &&& forall|k: int|
        0 <= k < n.bytes.len() ==> if n.case_sensitive {
            #[trigger] h[i + k] == n.bytes[k]
        } else {
            lower_byte(#[trigger] h[i + k]) == lower_byte(n.bytes[k])
        }
}

/// The needle appears somewhere in `h`.
pub open spec fn occurs_in(n: NeedleV, h: Seq<u8>) -> bool {
    n.bytes.len() > 0 && exists|i: int| #[trigger] matches_at(n, h, i)
}

/// The last `keep` bytes of `s` (all of it when shorter).
pub open spec fn tail(s: Seq<u8>, keep: int) -> Seq<u8> {
    if s.len() <= keep {
        s
    } else {
        s.skip(s.len() - keep)
    }
}

/// The text being looked for.
#[derive(Debug, Clone, PartialEq, Eq)]
pub struct Needle {
    bytes: Vec<u8>,
    case_sensitive: bool,
}

impl View for Needle {
    type V = NeedleV;

    closed spec fn view(&self) -> NeedleV {
        NeedleV { bytes: self.bytes@, case_sensitive: self.case_sensitive }
    }
}

impl Needle {
    /// `None` for an empty search, which means "don't search the contents".
    ///
    /// Folding case works on the bytes rather than the characters: it makes the
    /// needle and the file comparable without decoding the file at all, at the
    /// price of only ignoring case for ASCII. Anything else has to match exactly.
    pub fn new(text: &str, case_sensitive: bool) -> (r: Option<Needle>)
        ensures
            r is None <==> text@.len() == 0,
            r matches Some(n) ==> n@ == (NeedleV {
                bytes: if case_sensitive {
                    encode_utf8(text@)
                } else {
                    lower_bytes(encode_utf8(text@))
                },
                case_sensitive,
            }),
    {
        if text.is_empty() {
            return None;
        }
        let raw = text.as_bytes();
        let mut bytes: Vec<u8> = Vec::new();
        let mut i: usize = 0;
        while i < raw.len()
            invariant
                i <= raw@.len(),
                bytes@ == (if case_sensitive {
                    raw@.take(i as int)
                } else {
                    lower_bytes(raw@.take(i as int))
                }),
            decreases raw@.len() - i,
        {
            let b = raw[i];
            let c = if !case_sensitive && 65 <= b && b <= 90 {
                b + 32
            } else {
                b
            };
            bytes.push(c);
            i += 1;
            proof {
                if case_sensitive {
                    assert(bytes@ =~= raw@.take(i as int));
                } else {
                    assert(bytes@ =~= lower_bytes(raw@.take(i as int)));
                }
            }
        }
        proof {
            assert(raw@.take(raw@.len() as int) =~= raw@);
        }
        Some(Needle { bytes, case_sensitive })
    }

    pub fn len(&self) -> (r: usize)
        ensures
            r == self@.bytes.len(),
    {
        self.bytes.len()
    }

    pub fn is_empty(&self) -> (r: bool)
        ensures
            r == (self@.bytes.len() == 0),
    {
        self.bytes.len() == 0
    }

    /// Whether the needle matches `haystack` at position `i`.
    fn matches_here(&self, haystack: &[u8], i: usize) -> (r: bool)
        requires
            i + self@.bytes.len() <= haystack@.len(),
        ensures
            r == matches_at(self@, haystack@, i as int),
    {
        let hl = haystack.len();
        let mut k: usize = 0;
        while k < self.bytes.len()
            invariant
                hl == haystack@.len(),
                k <= self.bytes@.len(),
                i + self.bytes@.len() <= haystack@.len(),
                forall|q: int|
                    0 <= q < k ==> if self.case_sensitive {
                        #[trigger] haystack@[i + q] == self.bytes@[q]
                    } else {
                        lower_byte(#[trigger] haystack@[i + q]) == lower_byte(self.bytes@[q])
                    },
            decreases self.bytes@.len() - k,
        {
            let h = haystack[i + k];
            let n = self.bytes[k];
            let same = if self.case_sensitive {
                h == n
            } else {
                let lh = if 65 <= h && h <= 90 {
                    h + 32
                } else {
                    h
                };
                let ln = if 65 <= n && n <= 90 {
                    n + 32
                } else {
                    n
                };
                lh == ln
            };
            if !same {
                return false;
            }
            k += 1;
        }
        true
    }

    /// Whether the text appears anywhere in `haystack`.
    pub fn is_in(&self, haystack: &[u8]) -> (r: bool)
        ensures
            r == occurs_in(self@, haystack@),
    {
        let n = self.bytes.len();
        if n == 0 || n > haystack.len() {
            proof {
                if n > 0 {
                    assert forall|i: int| !matches_at(self@, haystack@, i) by {}
                }
            }
            return false;
        }
        let hl = haystack.len();
        let last = hl - n;
        let mut i: usize = 0;
        while i <= last
            invariant
                hl == haystack@.len(),
                n > 0,
                n == self@.bytes.len(),
                n <= haystack@.len(),
                last == haystack@.len() - n,
                i <= last + 1,
                forall|j: int| 0 <= j < i ==> !matches_at(self@, haystack@, j),
            decreases last + 1 - i,
        {
            if self.matches_here(haystack, i) {
                return true;
            }
            i += 1;
        }
        proof {
            assert forall|j: int| !matches_at(self@, haystack@, j) by {
                if 0 <= j < i {
                }
            }
        }
        false
    }
}

/// What one step of a streaming search decided.
#[derive(Debug, PartialEq, Eq)]
pub enum ChunkScan {
    /// The text turned up; nothing more needs reading.
    Found,
    /// Not yet: read on, carrying these bytes into the next step.
    Carry(Vec<u8>),
}

/// One step of reading a stream: looks in what was carried over from the last step
/// followed by the new chunk, and when the text is not there keeps as much of the
/// end as a match could still need (one byte less than the text), so that a match
/// is found however it falls across the reads, whatever its length.
pub fn scan_chunk(needle: &Needle, carried: &[u8], chunk: &[u8]) -> (r: ChunkScan)
    requires
        needle@.bytes.len() > 0,
        carried@.len() + chunk@.len() <= usize::MAX,
    ensures
        (r is Found) == occurs_in(needle@, carried@ + chunk@),
        r matches ChunkScan::Carry(keep) ==> keep@ == tail(carried@ + chunk@, needle@.bytes.len() - 1),
{
    let mut window: Vec<u8> = Vec::new();
    let mut i: usize = 0;
    while i < carried.len()
        invariant
            i <= carried@.len(),
            window@ == carried@.take(i as int),
        decreases carried@.len() - i,
    {
        window.push(carried[i]);
        i += 1;
        assert(window@ =~= carried@.take(i as int));
    }
    let mut j: usize = 0;
    while j < chunk.len()
        invariant
            j <= chunk@.len(),
            window@ == carried@ + chunk@.take(j as int),
        decreases chunk@.len() - j,
    {
        window.push(chunk[j]);
        j += 1;
        assert(window@ =~= carried@ + chunk@.take(j as int));
    }
    assert(carried@.take(carried@.len() as int) =~= carried@);
    assert(chunk@.take(chunk@.len() as int) =~= chunk@);
    if needle.is_in(&window) {
        return ChunkScan::Found;
    }
    let overlap = needle.len() - 1;
    let keep = if window.len() < overlap {
        window.len()
    } else {
        overlap
    };
    let start = window.len() - keep;
    let mut kept: Vec<u8> = Vec::new();
    let mut k = start;
    while k < window.len()
        invariant
            start <= k <= window@.len(),
            kept@ == window@.subrange(start as int, k as int),
        decreases window@.len() - k,
    {
        kept.push(window[k]);
        k += 1;
        assert(kept@ =~= window@.subrange(start as int, k as int));
    }
    assert(kept@ =~= tail(window@, needle@.bytes.len() - 1));
    ChunkScan::Carry(kept)
}

// ---------------------------------------------------------------------------------------------
// Reading a stream chunk by chunk finds exactly what reading it whole would
// ---------------------------------------------------------------------------------------------

/// All chunks, one after another.
pub open spec fn concat(chunks: Seq<Seq<u8>>) -> Seq<u8>
    decreases chunks.len(),
{
    if chunks.len() == 0 {
        Seq::empty()
    } else {
        chunks[0] + concat(chunks.drop_first())
    }
}

/// The answer of a streaming search that calls [`scan_chunk`] on each chunk in
/// turn, starting with `carried`.
pub open spec fn scan_all(n: NeedleV, chunks: Seq<Seq<u8>>, carried: Seq<u8>) -> bool
    decreases chunks.len(),
{
    if chunks.len() == 0 {
        false
    } else {
        let w = carried + chunks[0];
        if occurs_in(n, w) {
            true
        } else {
            scan_all(n, chunks.drop_first(), tail(w, n.bytes.len() - 1))
        }
    }
}

/// When the text is not in `p`, only its last `|text| - 1` bytes can take part in a
/// match with what follows.
proof fn lemma_tail_suffices(n: NeedleV, p: Seq<u8>, c: Seq<u8>)
    requires
        n.bytes.len() > 0,
        !occurs_in(n, p),
    ensures
        occurs_in(n, p + c) == occurs_in(n, tail(p, n.bytes.len() - 1) + c),
{
    let t = tail(p, n.bytes.len() - 1);
    let off = p.len() - t.len();
    assert(p.skip(off) =~= t);
    if occurs_in(n, p + c) {
        let i = choose|i: int| #[trigger] matches_at(n, p + c, i);
        if i < off {
            // The whole match would then lie inside `p`.
            assert(i + n.bytes.len() <= p.len());
            assert forall|k: int| 0 <= k < n.bytes.len() implies if n.case_sensitive {
                #[trigger] p[i + k] == n.bytes[k]
            } else {
                lower_byte(#[trigger] p[i + k]) == lower_byte(n.bytes[k])
            } by {
                assert((p + c)[i + k] == p[i + k]);
            }
            assert(matches_at(n, p, i));
            assert(false);
        }
        assert forall|k: int| 0 <= k < n.bytes.len() implies if n.case_sensitive {
            #[trigger] (t + c)[(i - off) + k] == n.bytes[k]
        } else {
            lower_byte(#[trigger] (t + c)[(i - off) + k]) == lower_byte(n.bytes[k])
        } by {
            assert((t + c)[(i - off) + k] == (p + c)[i + k]);
        }
        assert(matches_at(n, t + c, i - off));
    }
    if occurs_in(n, t + c) {
        let i = choose|i: int| #[trigger] matches_at(n, t + c, i);
        assert forall|k: int| 0 <= k < n.bytes.len() implies if n.case_sensitive {
            #[trigger] (p + c)[(i + off) + k] == n.bytes[k]
        } else {
            lower_byte(#[trigger] (p + c)[(i + off) + k]) == lower_byte(n.bytes[k])
        } by {
            assert((t + c)[i + k] == (p + c)[(i + off) + k]);
        }
        assert(matches_at(n, p + c, i + off));
    }
}

proof fn lemma_scan_from(n: NeedleV, chunks: Seq<Seq<u8>>, p: Seq<u8>)
    requires
        n.bytes.len() > 0,
        !occurs_in(n, p),
    ensures
        scan_all(n, chunks, tail(p, n.bytes.len() - 1)) == occurs_in(n, p + concat(chunks)),
    decreases chunks.len(),
{
    let t = tail(p, n.bytes.len() - 1);
    if chunks.len() == 0 {
        assert(p + concat(chunks) =~= p);
    } else {
        let c0 = chunks[0];
        let rest = chunks.drop_first();
        lemma_tail_suffices(n, p, c0);
        lemma_tail_suffices(n, p, concat(chunks));
        assert(p + concat(chunks) =~= (p + c0) + concat(rest));
        if !occurs_in(n, t + c0) {
            let w = t + c0;
            lemma_tail_suffices(n, p + c0, concat(rest));
            lemma_scan_from(n, rest, p + c0);
            // The tail of the new window is the tail of everything read so far.
            let keep = n.bytes.len() - 1;
            assert(tail(w, keep) =~= tail(p + c0, keep)) by {
                assert(p.skip(p.len() - t.len()) =~= t);
            }
        } else {
            // Found in the window, so found in the whole.
            lemma_tail_suffices(n, p, c0 + concat(rest));
            assert forall|i: int| #[trigger] matches_at(n, p + c0, i) implies matches_at(
                n,
                (p + c0) + concat(rest),
                i,
            ) by {
                assert forall|k: int| 0 <= k < n.bytes.len() implies ((p + c0) + concat(rest))[i + k]
                    == #[trigger] (p + c0)[i + k] by {}
            }
        }
    }
}

/// Reading a stream in chunks of any sizes, carrying the tail of each step into the
/// next, finds the text exactly when it occurs in the stream read whole.
pub proof fn lemma_streaming_finds_what_whole_reading_finds(n: NeedleV, chunks: Seq<Seq<u8>>)
    requires
        n.bytes.len() > 0,
    ensures
        scan_all(n, chunks, Seq::empty()) == occurs_in(n, concat(chunks)),
{
    let e = Seq::<u8>::empty();
    assert(!occurs_in(n, e)) by {
        assert forall|i: int| !matches_at(n, e, i) by {}
    }
    assert(tail(e, n.bytes.len() - 1) =~= e);
    lemma_scan_from(n, chunks, e);
    assert(e + concat(chunks) =~= concat(chunks));
}

} // verus!

use vstd::prelude::*;

verus! {

/// A primitive's index stream as stored in the asset, in whichever width the
/// asset chose.
pub enum IndexStream {
    U8(Vec<u8>),
    U16(Vec<u16>),
    U32(Vec<u32>),
}

/// The three vertex-buffer positions of one triangle.
pub type Triangle = (u32, u32, u32);

impl IndexStream {
    /// The stream's indices, each widened to 32 bits.
    pub open spec fn values(&self) -> Seq<u32> {
        match self {
            IndexStream::U8(v) => v@.map_values(|x: u8| x as u32),
            IndexStream::U16(v) => v@.map_values(|x: u16| x as u32),
            IndexStream::U32(v) => v@,
        }
    }

    /// Number of indices in the stream.
    pub fn len(&self) -> (r: usize)
        ensures
            r == self.values().len(),
    {
        match self {
            IndexStream::U8(v) => v.len(),
            IndexStream::U16(v) => v.len(),
            IndexStream::U32(v) => v.len(),
        }
    }

    /// The index at position `i`, widened to 32 bits.
    pub fn get(&self, i: usize) -> (r: u32)
        requires
            i < self.values().len(),
        ensures
            r == self.values()[i as int],
    {
        match self {
            IndexStream::U8(v) => v[i] as u32,
            IndexStream::U16(v) => v[i] as u32,
            IndexStream::U32(v) => v[i],
        }
    }
}

/// Consecutive indices grouped into triangles; a trailing group of fewer
/// than three indices forms no triangle.
pub open spec fn triples(s: Seq<u32>) -> Seq<Triangle> {
    Seq::new(s.len() / 3, |k: int| (s[3 * k], s[3 * k + 1], s[3 * k + 2]))
}

/// The triangle list of a primitive: its index stream of any width grouped
/// into 32-bit triples, or nothing where the primitive has no index stream
/// (its attributes are then already one entry per triangle corner).
pub open spec fn triangle_list(stream: Option<IndexStream>) -> Seq<Triangle> {
    match stream {
        Some(s) => triples(s.values()),
        None => Seq::empty(),
    }
}

/// Flattens an index stream of any width into 32-bit triangle triples.
pub fn flatten_indices(stream: &Option<IndexStream>) -> (r: Vec<Triangle>)
    ensures
        r@ == triangle_list(*stream),
{
    let mut out: Vec<Triangle> = Vec::new();
    match stream {
        None => {},
        Some(s) => {
            let n = s.len();
            let mut j: usize = 0;
            while n - j >= 3
                invariant
                    n == s.values().len(),
                    j <= n,
                    j % 3 == 0,
                    out@.len() == j / 3,
                    forall|k: int|
                        0 <= k < out@.len() ==> #[trigger] out@[k] == (
                            s.values()[3 * k],
                            s.values()[3 * k + 1],
                            s.values()[3 * k + 2],
                        ),
                decreases n - j,
            {
                let t: Triangle = (s.get(j), s.get(j + 1), s.get(j + 2));
                out.push(t);
                j = j + 3;
            }
            assert(out@.len() == n / 3);
            assert(out@ =~= triples(s.values()));
        },
    }
    out
}

/// Index streams of different widths that hold the same indices give the
/// same triangle list.
pub proof fn lemma_index_width_normalization(a: IndexStream, b: IndexStream)
    requires
        a.values().len() == b.values().len(),
        forall|i: int| 0 <= i < a.values().len() ==> a.values()[i] == b.values()[i],
    ensures
        triangle_list(Some(a)) == triangle_list(Some(b)),
{
    assert(a.values() =~= b.values());
}

} // verus!

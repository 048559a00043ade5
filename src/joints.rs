use vstd::prelude::*;

verus! {

/// The joint indices of one vertex: up to four joints influence it.
pub type JointSet = [u16; 4];

/// A primitive's joint-index stream as stored in the asset, in whichever
/// width the asset chose.
pub enum JointStream {
    U8(Vec<[u8; 4]>),
    U16(Vec<[u16; 4]>),
}

impl JointStream {
    /// The stream's joint sets, each index widened to 16 bits.
    pub open spec fn values(&self) -> Seq<Seq<u16>> {
        match self {
            JointStream::U8(v) => v@.map_values(|j: [u8; 4]| j@.map_values(|x: u8| x as u16)),
            JointStream::U16(v) => v@.map_values(|j: [u16; 4]| j@),
        }
    }
}

/// Joint indices keep their integer form: a stream of either width becomes
/// one 16-bit joint set per vertex, index for index.
pub fn widen_joints(stream: &JointStream) -> (r: Vec<JointSet>)
    ensures
        r@.map_values(|j: JointSet| j@) == stream.values(),
{
    let mut out: Vec<JointSet> = Vec::new();
    match stream {
        JointStream::U8(v) => {
            let mut i: usize = 0;
            while i < v.len()
                invariant
                    i <= v@.len(),
                    out@.len() == i,
                    forall|k: int|
                        0 <= k < i ==> #[trigger] out@[k]@ == v@[k]@.map_values(
                            |x: u8| x as u16,
                        ),
                decreases v@.len() - i,
            {
                let j = v[i];
                let w: JointSet = [j[0] as u16, j[1] as u16, j[2] as u16, j[3] as u16];
                assert(w@ =~= j@.map_values(|x: u8| x as u16));
                out.push(w);
                i = i + 1;
            }
        },
        JointStream::U16(v) => {
            let mut i: usize = 0;
            while i < v.len()
                invariant
                    i <= v@.len(),
                    out@.len() == i,
                    forall|k: int| 0 <= k < i ==> #[trigger] out@[k] == v@[k],
                decreases v@.len() - i,
            {
                out.push(v[i]);
                i = i + 1;
            }
        },
    }
    assert(out@.map_values(|j: JointSet| j@) =~= stream.values());
    out
}

} // verus!

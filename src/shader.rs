use vstd::prelude::*;

verus! {

/// Which optional vertex attributes a primitive supplies to the shaders. At
/// most one set of each attribute kind is assumed.
#[derive(Default, PartialEq, Eq, Structural, Hash, Copy, Clone)]
pub struct Specification {
    pub has_normals: bool,
    pub has_tangents: bool,
    pub has_texcoords: bool,
    pub has_colors: bool,
    pub has_joints: bool,
}

/// The preprocessor symbol that enables each supplied attribute, in the
/// order normals, tangents, texcoords, colors, joints.
pub open spec fn define_names(s: Specification) -> Seq<Seq<char>> {
    (if s.has_normals { seq!["HAS_NORMALS"@] } else { Seq::empty() })
        + (if s.has_tangents { seq!["HAS_TANGENTS"@] } else { Seq::empty() })
        + (if s.has_texcoords { seq!["HAS_TEXCOORDS"@] } else { Seq::empty() })
        + (if s.has_colors { seq!["HAS_COLORS"@] } else { Seq::empty() })
        + (if s.has_joints { seq!["HAS_JOINTS"@] } else { Seq::empty() })
}

fn push_define(out: &mut Vec<(String, String)>, name: &str)
    ensures
        final(out)@.len() == old(out)@.len() + 1,
        forall|k: int| 0 <= k < old(out)@.len() ==> final(out)@[k] == old(out)@[k],
        final(out)@[old(out)@.len() as int].0@ == name@,
        final(out)@[old(out)@.len() as int].1@ == "1"@,
{
    out.push((name.to_owned(), "1".to_owned()));
}

impl Specification {
    /// The shader defines for this attribute set: one `(symbol, "1")` pair
    /// for each supplied attribute.
    pub fn get_defines(self) -> (r: Vec<(String, String)>)
        ensures
            r@.len() == define_names(self).len(),
            forall|k: int|
                0 <= k < r@.len() ==> r@[k].0@ == define_names(self)[k] && r@[k].1@ == "1"@,
    {
        let mut out: Vec<(String, String)> = Vec::new();
        if self.has_normals {
            push_define(&mut out, "HAS_NORMALS");
        }
        let ghost a = out@;
        if self.has_tangents {
            push_define(&mut out, "HAS_TANGENTS");
        }
        let ghost b = out@;
        if self.has_texcoords {
            push_define(&mut out, "HAS_TEXCOORDS");
        }
        let ghost c = out@;
        if self.has_colors {
            push_define(&mut out, "HAS_COLORS");
        }
        let ghost d = out@;
        if self.has_joints {
            push_define(&mut out, "HAS_JOINTS");
        }
        proof {
            let names = define_names(self);
            assert(out@.len() == names.len());
            assert forall|k: int| 0 <= k < out@.len() implies out@[k].0@ == names[k]
                && out@[k].1@ == "1"@ by {
                reveal_strlit("1");
            }
        }
        out
    }
}

} // verus!

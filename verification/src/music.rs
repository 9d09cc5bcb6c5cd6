//! Scale degrees of the chiptune tracks. A degree counts steps along a
//! scale, wrapping into the octaves above and below; the synthesizer turns
//! the resulting semitone offset into a frequency.

use vstd::prelude::*;

verus! {

/// The degree that marks a rest.
pub const REST: i32 = -127;

/// Semitones above the root of scale degree `degree`: the scale step it
/// lands on plus twelve per octave wrapped through.
pub open spec fn spec_semitones(scale: Seq<i32>, degree: int) -> int {
    let n = scale.len() as int;
    scale[degree % n] + 12 * (degree / n)
}

/// The octaves a degree wraps through.
pub open spec fn octaves(scale: Seq<i32>, degree: int) -> int {
    degree / (scale.len() as int)
}

/// The semitone offset of a scale degree, or `None` for a rest. Degrees
/// wrap into the octaves above and below, so a degree of `-1` is the top
/// step of the octave under the root.
pub fn semitones(scale: &[i32], degree: i32) -> (r: Option<i32>)
    requires
        0 < scale@.len() <= i32::MAX,
        degree != REST ==> i32::MIN <= 12 * octaves(scale@, degree as int) <= i32::MAX,
        degree != REST ==> i32::MIN <= spec_semitones(scale@, degree as int) <= i32::MAX,
    ensures
        degree == REST ==> r is None,
        degree != REST ==> r == Some(spec_semitones(scale@, degree as int) as i32),
{
    if degree == REST {
        return None;
    }
    let n: u64 = scale.len() as u64;
    let ghost ni = n as int;
    let ghost di = degree as int;
    let oct: i64;
    let idx: u64;
    if degree >= 0 {
        let du: u64 = degree as u64;
        oct = (du / n) as i64;
        idx = du % n;
        proof {
            vstd::arithmetic::div_mod::lemma_mod_bound(du as int, ni);
            assert(oct == di / ni && idx == di % ni);
        }
    } else {
        let du: u64 = (-(degree as i64)) as u64;
        let q: u64 = (du + n - 1) / n;
        proof {
            vstd::arithmetic::div_mod::lemma_fundamental_div_mod((du + n - 1) as int, ni);
            vstd::arithmetic::div_mod::lemma_mod_bound((du + n - 1) as int, ni);
            assert(q * n <= du + n - 1 && du <= q * n);
            assert(q <= du) by (nonlinear_arith)
                requires
                    q * n <= du + n - 1,
                    n >= 1,
                    du >= 1,
            ;
        }
        oct = -(q as i64);
        idx = q * n - du;
        proof {
            assert(di == (oct as int) * ni + (idx as int)) by (nonlinear_arith)
                requires
                    oct == -(q as int),
                    idx == q * n - du,
                    du == -di,
                    ni == n,
            ;
            vstd::arithmetic::div_mod::lemma_fundamental_div_mod_converse(di, ni, oct as int, idx as int);
        }
    }
    let step: i64 = scale[idx as usize] as i64;
    Some((step + 12 * oct) as i32)
}

} // verus!

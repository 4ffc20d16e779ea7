//! Matching source colours to the palette.
use vstd::prelude::*;

verus! {

/// The distance between two colours: the sum over the channels of the
/// absolute differences.
pub open spec fn distance(a: Seq<u8>, b: Seq<u8>) -> int {
    (if a[0] >= b[0] { a[0] - b[0] } else { b[0] - a[0] }) + (if a[1] >= b[1] { a[1] - b[1] } else { b[1]
        - a[1] }) + (if a[2] >= b[2] { a[2] - b[2] } else { b[2] - a[2] })
}

fn channel_distance(a: u8, b: u8) -> (r: u32)
    ensures
        r == if a >= b { a - b } else { b - a },
{
    if a >= b {
        (a - b) as u32
    } else {
        (b - a) as u32
    }
}

/// The index of the palette colour nearest to `color`, the first of them on a tie.
pub fn nearest_color(palette: &Vec<[u8; 3]>, color: &[u8; 3]) -> (r: usize)
    requires
        palette@.len() >= 1,
    ensures
        r < palette@.len(),
        forall|j: int| 0 <= j < palette@.len() ==> distance(palette@[r as int]@, color@) <= #[trigger] distance(palette@[j]@, color@),
        forall|j: int| 0 <= j < r ==> distance(palette@[r as int]@, color@) < #[trigger] distance(palette@[j]@, color@),
{
    let mut best: usize = 0;
    let mut best_distance: u32 = channel_distance(palette[0][0], color[0]) + channel_distance(palette[0][1], color[1])
        + channel_distance(palette[0][2], color[2]);
    let mut i: usize = 1;
    while i < palette.len()
        invariant
            1 <= i <= palette@.len(),
            best < i,
            best_distance == distance(palette@[best as int]@, color@),
            forall|j: int| 0 <= j < i ==> distance(palette@[best as int]@, color@) <= #[trigger] distance(palette@[j]@, color@),
            forall|j: int| 0 <= j < best ==> distance(palette@[best as int]@, color@) < #[trigger] distance(palette@[j]@, color@),
        decreases palette@.len() - i,
    {
        let d = channel_distance(palette[i][0], color[0]) + channel_distance(palette[i][1], color[1])
            + channel_distance(palette[i][2], color[2]);
        if d < best_distance {
            best = i;
            best_distance = d;
        }
        i = i + 1;
    }
    best
}

} // verus!

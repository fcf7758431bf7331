use vstd::prelude::*;

verus! {

/// The frames of a sprite animation: atlas indices `start..=end`.
#[derive(Clone, Copy, Debug, Default, PartialEq, Eq, Structural)]
pub struct SpriteAnimationIndices {
    pub start: u16,
    pub end: u16,
}

impl SpriteAnimationIndices {
    pub fn new(start: u16, end: u16) -> (indices: Self)
        ensures
            indices.start == start,
            indices.end == end,
    {
        SpriteAnimationIndices { start, end }
    }
}

/// The atlas index after one update: an index before the first frame snaps to
/// it; when the frame timer finished, the index advances and wraps from past
/// the last frame back to the first.
pub fn next_frame(index: usize, indices: SpriteAnimationIndices, timer_finished: bool) -> (next:
    usize)
    requires
        index < usize::MAX,
    ensures
        ({
            let current = if index < indices.start {
                indices.start as int
            } else {
                index as int
            };
            next == if !timer_finished {
                current
            } else if current + 1 > indices.end {
                indices.start as int
            } else {
                current + 1
            }
        }),
{
    let mut current = index;
    if current < indices.start as usize {
        current = indices.start as usize;
    }
    if !timer_finished {
        return current;
    }
    current = current + 1;
    if current > indices.end as usize {
        current = indices.start as usize;
    }
    current
}

} // verus!

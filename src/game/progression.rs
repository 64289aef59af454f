use vstd::prelude::*;

verus! {

/// Number of levels in the progression.
pub const MAX_LEVEL: usize = 217;

/// The complexity played at each level, level 1 first: the distinct
/// complexity values of the puzzle corpus in ascending order.
pub const LEVEL_TO_COMPLEXITY: [usize; 217] = [
    1, 2, 3, 4, 5, 6, 7, 8, 9, 10, 11, 12, 13, 14, 15, 16,
    17, 18, 20, 21, 22, 24, 25, 26, 27, 28, 30, 32, 33, 34, 35, 36,
    39, 40, 42, 44, 45, 48, 49, 50, 52, 54, 55, 56, 60, 63, 64, 65,
    66, 70, 72, 75, 77, 78, 80, 81, 84, 88, 90, 91, 96, 98, 99, 100,
    104, 105, 108, 110, 112, 117, 120, 121, 126, 128, 130, 132, 135, 136, 140, 143,
    144, 147, 150, 152, 153, 154, 156, 160, 161, 162, 165, 168, 169, 170, 171, 175,
    176, 180, 182, 184, 187, 189, 190, 192, 195, 196, 198, 200, 204, 207, 208, 209,
    210, 216, 220, 221, 224, 225, 228, 230, 231, 232, 234, 240, 242, 248, 250, 252,
    253, 260, 261, 264, 270, 279, 280, 285, 286, 288, 294, 297, 299, 300, 304, 306,
    308, 310, 312, 319, 320, 322, 325, 330, 333, 336, 338, 342, 348, 350, 351, 352,
    360, 363, 364, 368, 370, 372, 374, 376, 378, 384, 390, 392, 418, 420, 423, 429,
    430, 432, 440, 450, 470, 494, 500, 504, 517, 532, 533, 540, 550, 570, 576, 583,
    594, 600, 624, 630, 650, 663, 671, 672, 676, 684, 696, 700, 708, 728, 732, 740,
    792, 810, 832, 852, 858, 880, 924, 936, 960,
];

/// Where the player stands in the level sequence.
#[derive(Debug)]
pub struct ProgressionTracker {
    /// Current level, from 1 to `MAX_LEVEL`.
    pub current_level: usize,
    /// Puzzles completed at the current level.
    pub completed_at_level: usize,
}

impl Default for ProgressionTracker {
    fn default() -> (r: ProgressionTracker)
        ensures
            r.current_level == 1,
            r.completed_at_level == 0,
    {
        ProgressionTracker { current_level: 1, completed_at_level: 0 }
    }
}

impl ProgressionTracker {
    /// The complexity of the current level.
    pub fn current_complexity(&self) -> (r: usize)
        requires
            1 <= self.current_level <= MAX_LEVEL,
        ensures
            r == LEVEL_TO_COMPLEXITY@[self.current_level - 1],
    {
        LEVEL_TO_COMPLEXITY[self.current_level - 1]
    }

    /// Moves to the next level, from the last back to the first, with no
    /// puzzle completed there yet.
    pub fn advance_level(&mut self)
        ensures
            final(self).current_level == if old(self).current_level >= MAX_LEVEL {
                1
            } else {
                old(self).current_level + 1
            },
            final(self).completed_at_level == 0,
    {
        self.current_level = if self.current_level >= MAX_LEVEL {
            1
        } else {
            self.current_level + 1
        };
        self.completed_at_level = 0;
    }

    pub fn is_final_level(&self) -> (r: bool)
        ensures
            r == (self.current_level == MAX_LEVEL),
    {
        self.current_level == MAX_LEVEL
    }

    pub fn max_level() -> (r: usize)
        ensures
            r == MAX_LEVEL,
    {
        MAX_LEVEL
    }
}

} // verus!

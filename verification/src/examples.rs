use vstd::prelude::*;

use crate::square::Square;

verus! {

/// The sample Nikoli puzzle: a 5x5 grid with a cape `3` at row 0 column 0,
/// a plain cape at row 0 column 2, and capes `4` at rows and columns
/// (1, 3), (2, 0) and (4, 4); every other cell is blank.
pub fn example0() -> (r: Vec<Vec<Square>>)
    ensures
        r@.len() == 5,
        forall|i: int| 0 <= i < 5 ==> (#[trigger] r@[i])@.len() == 5,
        forall|i: int, j: int| 0 <= i < 5 && 0 <= j < 5 ==> (#[trigger] r@[i]@[j]).wf(),
        r@[0]@[0] == Square::Number(3u8),
        r@[0]@[2] == Square::Number(1u8),
        r@[1]@[3] == Square::Number(4u8),
        r@[2]@[0] == Square::Number(4u8),
        r@[4]@[4] == Square::Number(4u8),
        forall|i: int, j: int|
            0 <= i < 5 && 0 <= j < 5 && !((i, j) == (0int, 0int) || (i, j) == (0int, 2int) || (i, j)
                == (1int, 3int) || (i, j) == (2int, 0int) || (i, j) == (4int, 4int)) ==> r@[i]@[j]
                == Square::Blank,
{
    let row0 = vec![
        Square::Number(3u8),
        Square::Blank,
        Square::Number(1u8),
        Square::Blank,
        Square::Blank,
    ];
    let row1 = vec![
        Square::Blank,
        Square::Blank,
        Square::Blank,
        Square::Number(4u8),
        Square::Blank,
    ];
    let row2 = vec![
        Square::Number(4u8),
        Square::Blank,
        Square::Blank,
        Square::Blank,
        Square::Blank,
    ];
    let row3 = vec![Square::Blank, Square::Blank, Square::Blank, Square::Blank, Square::Blank];
    let row4 = vec![
        Square::Blank,
        Square::Blank,
        Square::Blank,
        Square::Blank,
        Square::Number(4u8),
    ];
    let r = vec![row0, row1, row2, row3, row4];
    r
}

} // verus!

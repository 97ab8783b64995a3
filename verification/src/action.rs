//! Moves as lists of cells, and the picture of a move that numbers its
//! cells in order.
use vstd::prelude::*;

verus! {

/// A move: the cells it joins, in order; the last one receives the sum.
pub type Action = Vec<usize>;

/// The picture of move `a`: each cell holds its position in the move,
/// counted from 1 (a later visit wins), and cells off the move hold 0.
pub open spec fn order_picture(a: Seq<usize>) -> Seq<usize>
    decreases a.len(),
{
    if a.len() == 0 {
        Seq::new(25, |i: int| 0usize)
    } else {
        order_picture(a.drop_last()).update(a.last() as int, a.len() as usize)
    }
}

/// Numbers the cells of a move in the order it visits them, for showing it
/// on a 5x5 board; cells off the move are 0.
pub fn action_picture(action: &Action) -> (res: [usize; 25])
    requires
        forall|k: int| 0 <= k < action@.len() ==> #[trigger] action@[k] < 25,
    ensures
        res@ == order_picture(action@),
{
    let mut board: [usize; 25] = [0usize; 25];
    assert(board@ =~= order_picture(action@.take(0)));
    let mut order: usize = 0;
    while order < action.len()
        invariant
            order <= action@.len(),
            forall|k: int| 0 <= k < action@.len() ==> #[trigger] action@[k] < 25,
            board@ == order_picture(action@.take(order as int)),
        decreases action@.len() - order,
    {
        let tile = action[order];
        assert(action@.take(order + 1).drop_last() =~= action@.take(order as int));
        board[tile] = order + 1;
        assert(board@ =~= order_picture(action@.take(order + 1)));
        order = order + 1;
    }
    assert(action@.take(order as int) =~= action@);
    board
}

} // verus!

use vstd::prelude::*;

use crate::game::{button_offset, position_label, Player, MAX_PLAYERS, MIN_PLAYERS};
use crate::play::Game;

verus! {

impl Game {
    /// The position names at a table of `player_count` players, starting at the button.
    pub fn position_names(player_count: usize) -> (r: Option<Vec<(&'static str, &'static str)>>)
        ensures
            (player_count < MIN_PLAYERS || player_count > MAX_PLAYERS) ==> r is None,
            (MIN_PLAYERS <= player_count <= MAX_PLAYERS) ==> (r matches Some(v) && v@.len()
                == player_count && forall|i: int|
                0 <= i < player_count ==> #[trigger] v@[i] == position_label(player_count as int, i)),
    {
        if player_count < MIN_PLAYERS || player_count > MAX_PLAYERS {
            return None;
        }
        let mut v = Vec::new();
        let mut i: usize = 0;
        while i < player_count
            invariant
                2 <= player_count <= MAX_PLAYERS,
                i <= player_count,
                v@.len() == i,
                forall|k: int| 0 <= k < i ==> #[trigger] v@[k] == position_label(player_count as int, k),
            decreases player_count - i,
        {
            v.push(crate::game::position_label_exec(player_count, i));
            i = i + 1;
        }
        Some(v)
    }

    /// The name of the position of `player` when `button` has the button.
    pub fn position_name(player_count: usize, button: Player, player: Player) -> (r: Option<(&'static str, &'static str)>)
        ensures
            r == if player_count < MIN_PLAYERS || player_count > MAX_PLAYERS || button.value()
                >= player_count || player.value() >= player_count {
                None
            } else {
                Some(position_label(player_count as int, button_offset(player_count as int, button.value(), player.value())))
            },
    {
        if player_count < MIN_PLAYERS || player_count > MAX_PLAYERS || button.to_usize()
            >= player_count || player.to_usize() >= player_count {
            return None;
        }
        let index = (player_count - button.to_usize() + player.to_usize()) % player_count;
        Some(crate::game::position_label_exec(player_count, index))
    }

    /// Seats left of the button that `player` sits, as a player index.
    pub fn player_to_button_offset(player_count: usize, button: Player, player: Player) -> (r: Option<Player>)
        ensures
            r == if player_count < MIN_PLAYERS || player_count > MAX_PLAYERS || button.value()
                >= player_count || player.value() >= player_count {
                None
            } else {
                Some(Player(button_offset(player_count as int, button.value(), player.value()) as u8))
            },
    {
        if player_count < MIN_PLAYERS || player_count > MAX_PLAYERS || button.to_usize()
            >= player_count || player.to_usize() >= player_count {
            return None;
        }
        let index = (player_count - button.to_usize() + player.to_usize()) % player_count;
        Some(Player(index as u8))
    }
}

/// The button's own seat is the button position, and the seat after it is
/// the small blind (the big blind with two players).
pub proof fn law_button_names(count: int, button: int)
    requires
        MIN_PLAYERS <= count <= MAX_PLAYERS,
        0 <= button < count,
    ensures
        position_label(count, button_offset(count, button, button)).0 == "BTN",
        position_label(count, button_offset(count, button, (button + 1) % count)).0 == (if count == 2 {
            "BB"
        } else {
            "SB"
        }),
{
    assert(button_offset(count, button, button) == 0) by (nonlinear_arith)
        requires
            0 <= button < count,
    {
        assert((count - button + button) % count == count % count);
    }
    assert(button_offset(count, button, (button + 1) % count) == 1) by (nonlinear_arith)
        requires
            0 <= button < count,
            count >= 2,
    {
    }
}

} // verus!

use vstd::prelude::*;

verus! {

/// The screen the game shows.
#[derive(Clone, Copy, Debug, PartialEq, Eq, Structural)]
pub enum Screen {
    /// The instructions, shown until Enter is pressed.
    Instructions,
    /// The maze, played until enough cats are caught.
    Playing,
    /// The winner's screen, shown until Enter is pressed.
    Winner,
}

/// The number of cats the player must catch to win.
pub const CATS_TO_WIN: u32 = 3;

/// The screen for the next frame, given whether Enter is held down and how
/// many cats are caught after this frame.
pub fn next_screen(screen: Screen, enter_pressed: bool, caught: u32) -> (next: Screen)
    ensures
        next == match screen {
            Screen::Instructions => if enter_pressed { Screen::Playing } else { Screen::Instructions },
            Screen::Playing => if caught >= CATS_TO_WIN { Screen::Winner } else { Screen::Playing },
            Screen::Winner => if enter_pressed { Screen::Instructions } else { Screen::Winner },
        },
{
    match screen {
        Screen::Instructions => {
            if enter_pressed {
                Screen::Playing
            } else {
                Screen::Instructions
            }
        },
        Screen::Playing => {
            if caught >= CATS_TO_WIN {
                Screen::Winner
            } else {
                Screen::Playing
            }
        },
        Screen::Winner => {
            if enter_pressed {
                Screen::Instructions
            } else {
                Screen::Winner
            }
        },
    }
}

} // verus!

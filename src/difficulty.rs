//! Difficulty tiers, the keys that their speed triggers are stored under, and
//! the choices a front end offers.
use vstd::prelude::*;

verus! {

/// What to do with a chart's speed triggers.
#[derive(Clone, Copy, Debug, PartialEq, Eq, Structural)]
pub enum Action {
    Integrate,
    Extract,
    Remove,
}

/// A chart difficulty tier; `Legacy` is the single tier of charts made before
/// each difficulty had its own speed triggers.
#[derive(Clone, Copy, Debug, PartialEq, Eq, Structural)]
pub enum Difficulty {
    Easy,
    Normal,
    Hard,
    Expert,
    XD,
    RemiXD,
    Legacy,
}

/// An event of a front end that collects a chart, an action, a difficulty and
/// a speeds file before processing.
#[derive(Clone, Copy, Debug, PartialEq, Eq, Structural)]
pub enum Message {
    SelectChart,
    SelectAction(Action),
    SelectDifficulty(Difficulty),
    SelectSpeeds,
    ProcessAndSave,
}

/// The name shown for a difficulty.
pub open spec fn difficulty_label(d: Difficulty) -> Seq<char> {
    match d {
        Difficulty::Easy => "Easy"@,
        Difficulty::Normal => "Normal"@,
        Difficulty::Hard => "Hard"@,
        Difficulty::Expert => "Expert"@,
        Difficulty::XD => "XD"@,
        Difficulty::RemiXD => "RemiXD"@,
        Difficulty::Legacy => "All (Legacy)"@,
    }
}

impl Difficulty {
    /// The name shown for this difficulty.
    pub fn label(&self) -> (r: &'static str)
        ensures
            r@ == difficulty_label(*self),
    {
        match self {
            Difficulty::Easy => "Easy",
            Difficulty::Normal => "Normal",
            Difficulty::Hard => "Hard",
            Difficulty::Expert => "Expert",
            Difficulty::XD => "XD",
            Difficulty::RemiXD => "RemiXD",
            Difficulty::Legacy => "All (Legacy)",
        }
    }
}

/// The storage key of the difficulty numbered `opt` in the menu: 1 to 5 for
/// Easy to XD, 6 for the legacy all-difficulty key.
pub open spec fn menu_key(opt: i32) -> Option<Seq<char>> {
    if opt == 1 {
        Some("SpeedHelper_SpeedTriggers_EASY"@)
    } else if opt == 2 {
        Some("SpeedHelper_SpeedTriggers_NORMAL"@)
    } else if opt == 3 {
        Some("SpeedHelper_SpeedTriggers_HARD"@)
    } else if opt == 4 {
        Some("SpeedHelper_SpeedTriggers_EXPERT"@)
    } else if opt == 5 {
        Some("SpeedHelper_SpeedTriggers_XD"@)
    } else if opt == 6 {
        Some("SpeedHelper_SpeedTriggers"@)
    } else {
        None
    }
}

/// The storage key of the difficulty numbered `opt` in the menu, or `None`
/// for a number that names none.
pub fn map_num_to_key(opt: i32) -> (r: Option<&'static str>)
    ensures
        r matches Some(k) ==> menu_key(opt) == Some(k@),
        r is None ==> menu_key(opt) is None,
{
    match opt {
        1 => Some("SpeedHelper_SpeedTriggers_EASY"),
        2 => Some("SpeedHelper_SpeedTriggers_NORMAL"),
        3 => Some("SpeedHelper_SpeedTriggers_HARD"),
        4 => Some("SpeedHelper_SpeedTriggers_EXPERT"),
        5 => Some("SpeedHelper_SpeedTriggers_XD"),
        6 => Some("SpeedHelper_SpeedTriggers"),
        _ => None,
    }
}

} // verus!

use vstd::prelude::*;
use vstd::string::StringExecFns;

verus! {

/// The teams that can sit at one board.
#[derive(Clone, Copy, Debug, PartialEq, Eq, Hash, Structural)]
pub enum Team {
    One,
    Two,
    Three,
}

impl Team {
    /// Position of the team in declaration order.
    pub open spec fn ordinal(self) -> int {
        match self {
            Team::One => 0,
            Team::Two => 1,
            Team::Three => 2,
        }
    }

    /// The team at a given position; positions past the end give `Three`.
    pub open spec fn at(i: int) -> Team {
        if i <= 0 {
            Team::One
        } else if i == 1 {
            Team::Two
        } else {
            Team::Three
        }
    }

    /// The colour that stands for the team.
    pub open spec fn colour(self) -> Seq<char> {
        match self {
            Team::One => "BLUE"@,
            Team::Two => "GREEN"@,
            Team::Three => "RED"@,
        }
    }

    /// The code that switches a terminal to the team's colour, for the
    /// background or for the text.
    pub open spec fn colour_code(self, background: bool) -> Seq<char> {
        match self {
            Team::One => if background {
                "44"@
            } else {
                "34"@
            },
            Team::Two => if background {
                "42"@
            } else {
                "32"@
            },
            Team::Three => if background {
                "41"@
            } else {
                "31"@
            },
        }
    }

    /// A text between the escape sequence that sets the team's colour and
    /// the one that sets both colours back.
    pub open spec fn coloured(self, text: Seq<char>, background: bool) -> Seq<char> {
        "\x1b["@ + self.colour_code(background) + "m"@ + text + "\x1b[39;49m"@
    }

    /// The text wrapped for a terminal so that it shows in the team's
    /// colour, or on it: the escape sequence that sets the colour, the text,
    /// and the escape sequence that sets both colours back.
    pub fn with_team_color(&self, string: &str, background: bool) -> (text: String)
        ensures
            text@ == self.coloured(string@, background),
    {
        let color = match self {
            Team::One => if background {
                "44"
            } else {
                "34"
            },
            Team::Two => if background {
                "42"
            } else {
                "32"
            },
            Team::Three => if background {
                "41"
            } else {
                "31"
            },
        };
        let mut text = String::from_str("\x1b[");
        text.append(color);
        text.append("m");
        text.append(string);
        text.append("\x1b[39;49m");
        text
    }

    /// The name of the team: that of its colour.
    pub fn to_string(&self) -> (name: String)
        ensures
            name@ == self.colour(),
    {
        String::from_str(
            match self {
                Team::One => "BLUE",
                Team::Two => "GREEN",
                Team::Three => "RED",
            },
        )
    }

    pub fn index(&self) -> (i: usize)
        ensures
            i == self.ordinal(),
            i < 3,
    {
        match self {
            Team::One => 0,
            Team::Two => 1,
            Team::Three => 2,
        }
    }
}

} // verus!

use vstd::prelude::*;

verus! {

/// Which pair loop a periodic system uses for forces and energy: every pair,
/// or only pairs found through the cell list.
#[derive(Clone, Copy, Debug, PartialEq, Eq, Structural)]
pub enum ForceMode {
    Naive,
    Cells,
}

/// The command-line name of a force mode.
pub open spec fn force_mode_name(m: ForceMode) -> Seq<char> {
    match m {
        ForceMode::Naive => "naive"@,
        ForceMode::Cells => "cells"@,
    }
}

/// The force mode that a command-line word names, if any.
pub open spec fn parse_force_mode(s: Seq<char>) -> Option<ForceMode> {
    if s == "naive"@ {
        Some(ForceMode::Naive)
    } else if s == "cells"@ {
        Some(ForceMode::Cells)
    } else {
        None
    }
}

/// The message for a word that names no force mode.
pub open spec fn unknown_force_message(s: Seq<char>) -> Seq<char> {
    "unknown --force "@ + s + "; use naive or cells"@
}

impl ForceMode {
    /// The command-line name of this mode: `naive` or `cells`.
    pub fn as_str(&self) -> (name: &'static str)
        ensures
            name@ == force_mode_name(*self),
    {
        match self {
            ForceMode::Naive => "naive",
            ForceMode::Cells => "cells",
        }
    }

    /// Reads a force mode from its command-line name; any other word is an
    /// error whose message names the word and the two accepted ones.
    pub fn parse(s: &str) -> (r: Result<ForceMode, String>)
        ensures
            match parse_force_mode(s@) {
                Some(m) => r == Ok::<ForceMode, String>(m),
                None => r is Err && r->Err_0@ == unknown_force_message(s@),
            },
            r == Ok::<ForceMode, String>(ForceMode::Naive) <==> s@ == "naive"@,
            r == Ok::<ForceMode, String>(ForceMode::Cells) <==> s@ == "cells"@,
            r is Err <==> (s@ != "naive"@ && s@ != "cells"@),
    {
        proof {
            law_parse_accepts_exactly_the_names(s@);
        }
        let word = String::from_str(s);
        if word == String::from_str("naive") {
            Ok(ForceMode::Naive)
        } else if word == String::from_str("cells") {
            Ok(ForceMode::Cells)
        } else {
            let mut msg = String::from_str("unknown --force ");
            msg.append(s);
            msg.append("; use naive or cells");
            Err(msg)
        }
    }
}

impl Default for ForceMode {
    /// The cell list is the default force path.
    fn default() -> (m: Self)
        ensures
            m == ForceMode::Cells,
    {
        ForceMode::Cells
    }
}

impl std::str::FromStr for ForceMode {
    type Err = String;

    fn from_str(s: &str) -> (r: Result<Self, String>)
        ensures
            match parse_force_mode(s@) {
                Some(m) => r == Ok::<ForceMode, String>(m),
                None => r is Err && r->Err_0@ == unknown_force_message(s@),
            },
            r == Ok::<ForceMode, String>(ForceMode::Naive) <==> s@ == "naive"@,
            r == Ok::<ForceMode, String>(ForceMode::Cells) <==> s@ == "cells"@,
            r is Err <==> (s@ != "naive"@ && s@ != "cells"@),
    {
        ForceMode::parse(s)
    }
}

/// Only the two names are accepted: `naive` selects the all-pairs mode,
/// `cells` the cell list, and every other word (a capitalised name included)
/// is refused.
pub proof fn law_parse_accepts_exactly_the_names(s: Seq<char>)
    ensures
        parse_force_mode(s) == Some(ForceMode::Naive) <==> s == "naive"@,
        parse_force_mode(s) == Some(ForceMode::Cells) <==> s == "cells"@,
        parse_force_mode(s) is None <==> (s != "naive"@ && s != "cells"@),
        parse_force_mode(s) matches Some(m) ==> s == force_mode_name(m),
{
    reveal_strlit("naive");
    reveal_strlit("cells");
    assert("naive"@ != "cells"@) by {
        assert("naive"@[0] != "cells"@[0]);
    }
}

/// Reading back the name of a mode gives the mode again.
pub proof fn law_force_mode_name_round_trip(m: ForceMode)
    ensures
        parse_force_mode(force_mode_name(m)) == Some(m),
{
    reveal_strlit("naive");
    reveal_strlit("cells");
    assert("naive"@ != "cells"@) by {
        assert("naive"@[0] != "cells"@[0]);
    }
}

/// The degrees of freedom of `n` atoms in two dimensions once the centre-of-mass
/// motion is removed, `2 n - 2`, which the thermostat divides the kinetic
/// energy by.
pub fn thermo_degrees_of_freedom(n_atoms: usize) -> (dof: usize)
    requires
        n_atoms > 1,
        2 * n_atoms <= usize::MAX,
    ensures
        dof == 2 * n_atoms - 2,
{
    2 * n_atoms - 2
}

} // verus!

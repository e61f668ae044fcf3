//! Glyph selection: the ordered eye-preset scan and the thought-link glyph
//! that the single thinking/speaking mode picks.

use vstd::prelude::*;

verus! {

/// The eye glyph chosen by the ordered preset scan: the first enabled preset
/// wins, a non-empty custom string beats the default, and the default `oo`
/// always matches last.
pub open spec fn eye_choice(
    borg: bool,
    dead: bool,
    greedy: bool,
    paranoid: bool,
    stoned: bool,
    tired: bool,
    wired: bool,
    youthful: bool,
    custom: Seq<char>,
) -> Seq<char> {
    if borg {
        "=="@
    } else if dead {
        "xx"@
    } else if greedy {
        "$$"@
    } else if paranoid {
        "@@"@
    } else if stoned {
        "**"@
    } else if tired {
        "--"@
    } else if wired {
        "OO"@
    } else if youthful {
        ".."@
    } else if custom.len() > 0 {
        custom
    } else {
        "oo"@
    }
}

/// Resolves the eye glyph from the preset flags and the custom override,
/// first match winning in the fixed order borg, dead, greedy, paranoid,
/// stoned, tired, wired, youthful, custom, default.
pub fn resolve_eyes<'a>(
    borg: bool,
    dead: bool,
    greedy: bool,
    paranoid: bool,
    stoned: bool,
    tired: bool,
    wired: bool,
    youthful: bool,
    custom: &'a str,
) -> (r: &'a str)
    ensures
        r@ == eye_choice(borg, dead, greedy, paranoid, stoned, tired, wired, youthful, custom@),
{
    if borg {
        "=="
    } else if dead {
        "xx"
    } else if greedy {
        "$$"
    } else if paranoid {
        "@@"
    } else if stoned {
        "**"
    } else if tired {
        "--"
    } else if wired {
        "OO"
    } else if youthful {
        ".."
    } else if !custom.is_empty() {
        custom
    } else {
        "oo"
    }
}

/// The thought-link glyph the thinking/speaking mode selects: `o` when
/// thinking, a single backslash when speaking.
pub open spec fn voice_choice(think: bool) -> Seq<char> {
    if think {
        "o"@
    } else {
        "\\"@
    }
}

/// Selects the thought-link glyph for the mode.
pub fn voice_glyph(think: bool) -> (r: &'static str)
    ensures
        r@ == voice_choice(think),
{
    if think {
        "o"
    } else {
        "\\"
    }
}

} // verus!

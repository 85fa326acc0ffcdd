//! Connector glyphs and the line prefix drawn before each entry name.
use vstd::prelude::*;

verus! {

/// One column of a row's prefix.
#[derive(Clone, Copy, Debug, PartialEq, Eq, Structural)]
pub enum Glyph {
    /// Corner of an entry that has later siblings.
    Branch,
    /// Corner of the last entry of its directory.
    Last,
    /// Continuation bar of an ancestor level that still has siblings to come.
    Bar,
    /// Filler of an ancestor level whose directory has emitted its last child.
    Blank,
}

/// The glyphs of a row whose ancestors' "last child" flags are `finished`
/// (outermost first), for an entry that is or is not the last of its siblings.
pub open spec fn row_glyphs(finished: Seq<bool>, is_last: bool) -> Seq<Glyph> {
    Seq::new(
        finished.len() + 1,
        |i: int|
            if i == finished.len() {
                if is_last { Glyph::Last } else { Glyph::Branch }
            } else if finished[i] {
                Glyph::Blank
            } else {
                Glyph::Bar
            },
    )
}

/// The characters drawn for one glyph.
pub open spec fn glyph_chars(g: Glyph) -> Seq<char> {
    match g {
        Glyph::Branch => seq!['├', '─', '─'],
        Glyph::Last => seq!['└', '─', '─'],
        Glyph::Bar => seq!['│'],
        Glyph::Blank => seq![' '],
    }
}

/// The characters drawn for column `i`: its indentation, then its glyph.
pub open spec fn column_chars(i: int, g: Glyph) -> Seq<char> {
    if i == 0 {
        glyph_chars(g)
    } else {
        seq![' ', ' ', ' '] + glyph_chars(g)
    }
}

/// The text of the first `n` columns of `gs`.
pub open spec fn prefix_chars(gs: Seq<Glyph>, n: int) -> Seq<char>
    decreases n,
{
    if n <= 0 {
        Seq::empty()
    } else {
        prefix_chars(gs, n - 1) + column_chars(n - 1, gs[n - 1])
    }
}

fn glyph_str(g: Glyph) -> (r: &'static str)
    ensures
        r@ == glyph_chars(g),
{
    match g {
        Glyph::Branch => {
            proof { reveal_strlit("├──"); }
            "├──"
        },
        Glyph::Last => {
            proof { reveal_strlit("└──"); }
            "└──"
        },
        Glyph::Bar => {
            proof { reveal_strlit("│"); }
            "│"
        },
        Glyph::Blank => {
            proof { reveal_strlit(" "); }
            " "
        },
    }
}

/// The text of a row prefix: each glyph in order, every one but the first
/// preceded by three spaces.
pub fn prefix_text(glyphs: &Vec<Glyph>) -> (r: String)
    ensures
        r@ == prefix_chars(glyphs@, glyphs@.len() as int),
{
    let mut out = String::from_str("");
    proof { reveal_strlit(""); }
    let mut i: usize = 0;
    while i < glyphs.len()
        invariant
            i <= glyphs@.len(),
            out@ == prefix_chars(glyphs@, i as int),
        decreases glyphs@.len() - i,
    {
        if i > 0 {
            out.append("   ");
            proof { reveal_strlit("   "); }
        }
        out.append(glyph_str(glyphs[i]));
        proof {
            assert(out@ =~= prefix_chars(glyphs@, i + 1));
        }
        i = i + 1;
    }
    out
}

} // verus!

//! Style model: alignment modes, colors, break-character classification and
//! font-name resolution against a registered font table.

use vstd::prelude::*;

verus! {

/// Horizontal alignment of one line, decided by the first glyph-bearing
/// chunk of the line (left when the line is empty or the chunk says nothing).
#[derive(Clone, Copy, Debug, PartialEq, Eq, Structural)]
pub enum TextAlign {
    Left,
    Right,
    Center,
    Justify,
}

/// An RGBA color with 8-bit channels.
#[derive(Clone, Copy, Debug, PartialEq, Eq, Structural)]
pub struct Rgba {
    pub r: u8,
    pub g: u8,
    pub b: u8,
    pub a: u8,
}

/// Characters that unconditionally terminate the current line.
pub open spec fn spec_is_line_break(c: char) -> bool {
    ||| c == '\n'
    ||| c == '\u{000b}'
    ||| c == '\u{000c}'
    ||| c == '\u{0085}'
    ||| c == '\u{2028}'
    ||| c == '\u{21b5}'
}

/// Space-category characters at which a line may be wrapped and which
/// receive the extra advance of justification.
pub open spec fn spec_is_can_line_break(c: char) -> bool {
    ||| c == ' '
    ||| c == '\u{1680}'
    ||| c == '\u{2000}'
    ||| c == '\u{2001}'
    ||| c == '\u{2002}'
    ||| c == '\u{2003}'
    ||| c == '\u{2004}'
    ||| c == '\u{2005}'
    ||| c == '\u{2006}'
    ||| c == '\u{2008}'
    ||| c == '\u{2009}'
    ||| c == '\u{200a}'
    ||| c == '\u{205f}'
    ||| c == '\u{3000}'
}

/// Classifies a character as a mandatory line terminator.
pub fn is_line_break(c: char) -> (r: bool)
    ensures
        r == spec_is_line_break(c),
{
    c == '\n' || c == '\u{000b}' || c == '\u{000c}' || c == '\u{0085}' || c == '\u{2028}'
        || c == '\u{21b5}'
}

/// Classifies a character as an allowed soft wrap point.
pub fn is_can_line_break(c: char) -> (r: bool)
    ensures
        r == spec_is_can_line_break(c),
{
    c == ' ' || c == '\u{1680}' || c == '\u{2000}' || c == '\u{2001}' || c == '\u{2002}'
        || c == '\u{2003}' || c == '\u{2004}' || c == '\u{2005}' || c == '\u{2006}'
        || c == '\u{2008}' || c == '\u{2009}' || c == '\u{200a}' || c == '\u{205f}'
        || c == '\u{3000}'
}

/// What `eq_font` decides: two font names count as equal only when both are
/// present and match; any comparison involving an absent name is "different".
pub open spec fn spec_eq_font(a: Option<Seq<char>>, b: Option<Seq<char>>) -> bool {
    a is Some && b is Some && a->0 == b->0
}

/// The view of an optional font name.
pub open spec fn spec_name_view(name: Option<String>) -> Option<Seq<char>> {
    match name {
        Some(s) => Some(s@),
        None => None,
    }
}

/// Compares two optional font names for the "did the active font change"
/// test. Two absent names are deliberately treated as different, so a chunk
/// without a font name always forces a fresh lookup.
pub fn eq_font(a: &Option<String>, b: &Option<String>) -> (r: bool)
    ensures
        r == spec_eq_font(spec_name_view(*a), spec_name_view(*b)),
{
    match (a, b) {
        (Some(na), Some(nb)) => *na == *nb,
        _ => false,
    }
}

/// Position of the first registered name equal to `n`, if any.
pub open spec fn spec_first_match(n: Seq<char>, names: Seq<Seq<char>>) -> Option<int>
    decreases names.len(),
{
    if names.len() == 0 {
        None
    } else if names[0] == n {
        Some(0int)
    } else {
        match spec_first_match(n, names.drop_first()) {
            Some(i) => Some(i + 1),
            None => None,
        }
    }
}

/// Which registered font a chunk's optional name resolves to: the first
/// name that matches, and the first registered font when the name is
/// absent or unmatched.
pub open spec fn spec_find_font(name: Option<Seq<char>>, names: Seq<Seq<char>>) -> int {
    match name {
        None => 0,
        Some(n) => match spec_first_match(n, names) {
            Some(i) => i,
            None => 0,
        },
    }
}

proof fn lemma_first_match_at(n: Seq<char>, names: Seq<Seq<char>>, i: int)
    requires
        0 <= i < names.len(),
        names[i] == n,
        forall|j: int| 0 <= j < i ==> names[j] != n,
    ensures
        spec_first_match(n, names) == Some(i),
    decreases i,
{
    if i > 0 {
        lemma_first_match_at(n, names.drop_first(), i - 1);
    }
}

proof fn lemma_first_match_none(n: Seq<char>, names: Seq<Seq<char>>)
    requires
        forall|j: int| 0 <= j < names.len() ==> names[j] != n,
    ensures
        spec_first_match(n, names) == None::<int>,
    decreases names.len(),
{
    if names.len() > 0 {
        lemma_first_match_none(n, names.drop_first());
    }
}

/// Resolves an optional font name against the registered font table:
/// the named font when present, otherwise the first registered font.
pub fn find_font(name: &Option<String>, names: &Vec<String>) -> (idx: usize)
    requires
        names@.len() >= 1,
    ensures
        idx < names@.len(),
        idx as int == spec_find_font(
            spec_name_view(*name),
            names@.map_values(|s: String| s@),
        ),
{
    let ghost nv = names@.map_values(|s: String| s@);
    match name {
        None => 0,
        Some(font_name) => {
            let mut i: usize = 0;
            while i < names.len()
                invariant
                    i <= names@.len(),
                    nv == names@.map_values(|s: String| s@),
                    spec_name_view(*name) == Some(font_name@),
                    forall|j: int| 0 <= j < i ==> nv[j] != font_name@,
                decreases names@.len() - i,
            {
                if names[i] == *font_name {
                    proof {
                        assert(nv[i as int] == names@[i as int]@);
                        lemma_first_match_at(font_name@, nv, i as int);
                    }
                    return i;
                }
                i = i + 1;
            }
            proof {
                lemma_first_match_none(font_name@, nv);
            }
            0
        },
    }
}

/// The font index each chunk resolves to, under the sticky-name rule of the
/// layout pass: a fresh lookup happens whenever the incoming name differs
/// from the current one under [`eq_font`] (so whenever either is absent),
/// and a name that `eq_font` calls equal keeps the previous font — which is
/// the font that very name resolves to.
pub fn resolve_fonts(chunk_fonts: &Vec<Option<String>>, names: &Vec<String>) -> (idx: Vec<
    usize,
>)
    requires
        names@.len() >= 1,
    ensures
        idx@.len() == chunk_fonts@.len(),
        forall|j: int|
            0 <= j < chunk_fonts@.len() ==> idx@[j] as int == spec_find_font(
                spec_name_view(#[trigger] chunk_fonts@[j]),
                names@.map_values(|s: String| s@),
            ),
{
    let ghost nv = names@.map_values(|s: String| s@);
    let mut idx: Vec<usize> = Vec::new();
    let mut current: Option<String> = None;
    let mut current_idx: usize = 0;
    let mut j: usize = 0;
    while j < chunk_fonts.len()
        invariant
            j <= chunk_fonts@.len(),
            idx@.len() == j,
            names@.len() >= 1,
            nv == names@.map_values(|s: String| s@),
            j == 0 ==> current is None,
            j > 0 ==> current_idx as int == spec_find_font(spec_name_view(current), nv),
            forall|t: int|
                0 <= t < j ==> idx@[t] as int == spec_find_font(
                    spec_name_view(#[trigger] chunk_fonts@[t]),
                    nv,
                ),
        decreases chunk_fonts@.len() - j,
    {
        let chunk_name = &chunk_fonts[j];
        if !eq_font(&current, chunk_name) {
            current_idx = find_font(chunk_name, names);
            current = match chunk_name {
                Some(s) => Some(s.clone()),
                None => None,
            };
            proof {
                assert(spec_name_view(current) == spec_name_view(chunk_fonts@[j as int]));
            }
        } else {
            proof {
                assert(spec_name_view(current) == spec_name_view(chunk_fonts@[j as int]));
            }
        }
        proof {
            assert(current_idx as int == spec_find_font(
                spec_name_view(chunk_fonts@[j as int]),
                nv,
            ));
        }
        idx.push(current_idx);
        j = j + 1;
    }
    idx
}

/// The font size in effect for each chunk: the chunk's own size when set,
/// otherwise the most recently set size, and zero before any size was set
/// (glyphs are then produced at scale zero).
pub fn effective_font_sizes(sizes: &Vec<Option<u32>>) -> (eff: Vec<u32>)
    ensures
        eff@.len() == sizes@.len(),
        forall|j: int| 0 <= j < sizes@.len() ==> eff@[j] == spec_effective_size(sizes@, j),
{
    let mut eff: Vec<u32> = Vec::new();
    let mut cur: u32 = 0;
    let mut j: usize = 0;
    while j < sizes.len()
        invariant
            j <= sizes@.len(),
            eff@.len() == j,
            j == 0 ==> cur == 0,
            j > 0 ==> cur == spec_effective_size(sizes@, j - 1),
            forall|t: int| 0 <= t < j ==> eff@[t] == spec_effective_size(sizes@, t),
        decreases sizes@.len() - j,
    {
        if let Some(s) = sizes[j] {
            cur = s;
        }
        eff.push(cur);
        j = j + 1;
    }
    eff
}

/// The most recently set size at position `j`, or zero when none was set.
pub open spec fn spec_effective_size(sizes: Seq<Option<u32>>, j: int) -> u32
    decreases j,
{
    if j < 0 || j >= sizes.len() {
        0
    } else {
        match sizes[j] {
            Some(s) => s,
            None => if j == 0 {
                0
            } else {
                spec_effective_size(sizes, j - 1)
            },
        }
    }
}

} // verus!

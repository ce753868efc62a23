//! The candidate palette: named colors expanded from source rows, with the
//! staircase variant scheme and an optional name filter.

use vstd::prelude::*;
use crate::color::Color;

verus! {

/// One palette entry: a color with its display name. Its position in the
/// palette is its index; indices are dense, zero-based, and assigned in
/// construction order.
#[derive(Debug)]
pub struct Candidate {
    pub color: Color,
    pub name: String,
}

/// The ordered candidate set the resolver searches. In staircase mode every
/// three consecutive entries form one variant group {LEVEL, UP, DOWN} derived
/// from a single source row, and the length is a multiple of three.
#[derive(Debug)]
pub struct Palette {
    pub entries: Vec<Candidate>,
    pub staircase: bool,
}

impl Palette {
    pub open spec fn wf(self) -> bool {
        self.staircase ==> self.entries@.len() % 3 == 0
    }
}

/// The colors of a candidate sequence, in order.
pub open spec fn colors_of(s: Seq<Candidate>) -> Seq<Color> {
    s.map_values(|c: Candidate| c.color)
}

/// The names of a candidate sequence, in order.
pub open spec fn names_of(s: Seq<Candidate>) -> Seq<Seq<char>> {
    s.map_values(|c: Candidate| c.name@)
}

/// A channel darkened by the factor `num / 100`, rounded half away from zero:
/// `round(ch * num / 100)`.
pub open spec fn scale_channel(ch: u8, num: int) -> int {
    (ch * num + 50) / 100
}

/// The darkened channel value stays inside the 8-bit range when the factor is
/// at most one.
pub proof fn lemma_scale_channel_range(ch: u8, num: int)
    requires
        0 <= num <= 100,
    ensures
        0 <= scale_channel(ch, num) <= 255,
{
    assert(ch * num <= 255 * 100) by (nonlinear_arith)
        requires 0 <= ch <= 255 && 0 <= num <= 100;
    assert(ch * num >= 0) by (nonlinear_arith)
        requires ch >= 0 && num >= 0;
}

/// A color with every channel darkened by `num / 100`.
pub open spec fn scale_color(c: Color, num: int) -> Color {
    Color {
        r: scale_channel(c.r, num) as u8,
        g: scale_channel(c.g, num) as u8,
        b: scale_channel(c.b, num) as u8,
    }
}

fn scale_channel_exec(ch: u8, num: u32) -> (r: u8)
    requires
        num <= 100,
    ensures
        r == scale_channel(ch, num as int),
{
    proof {
        lemma_scale_channel_range(ch, num as int);
    }
    (((ch as u32) * num + 50) / 100) as u8
}

/// The LEVEL darkening of a color: each channel scaled by 0.86 and rounded.
pub fn level_color(c: Color) -> (r: Color)
    ensures
        r == scale_color(c, 86),
{
    Color {
        r: scale_channel_exec(c.r, 86),
        g: scale_channel_exec(c.g, 86),
        b: scale_channel_exec(c.b, 86),
    }
}

/// The DOWN darkening of a color: each channel scaled by 0.71 and rounded.
pub fn down_color(c: Color) -> (r: Color)
    ensures
        r == scale_color(c, 71),
{
    Color {
        r: scale_channel_exec(c.r, 71),
        g: scale_channel_exec(c.g, 71),
        b: scale_channel_exec(c.b, 71),
    }
}

/// A decimal digit.
pub open spec fn is_digit(c: char) -> bool {
    '0' <= c && c <= '9'
}

/// The numeric value of a decimal digit string, most significant digit first.
pub open spec fn dec_val(s: Seq<char>) -> int
    decreases s.len(),
{
    if s.len() == 0 {
        0
    } else {
        10 * dec_val(s.drop_last()) + (s.last() as int - '0' as int)
    }
}

pub open spec fn all_digits(s: Seq<char>) -> bool {
    forall|i: int| 0 <= i < s.len() ==> is_digit(#[trigger] s[i])
}

/// The digit part of a channel field: everything after an optional leading `+`.
pub open spec fn chan_body(s: Seq<char>) -> Seq<char> {
    if s.len() > 0 && s[0] == '+' {
        s.drop_first()
    } else {
        s
    }
}

/// What a channel field parses to: an optional leading `+`, then one or more
/// decimal digits whose value fits in eight bits; anything else is rejected.
pub open spec fn parse_u8_spec(s: Seq<char>) -> Option<u8> {
    let body = chan_body(s);
    if body.len() > 0 && all_digits(body) && dec_val(body) <= 255 {
        Some(dec_val(body) as u8)
    } else {
        None
    }
}

pub proof fn lemma_dec_val_nonneg(s: Seq<char>)
    requires
        all_digits(s),
    ensures
        dec_val(s) >= 0,
    decreases s.len(),
{
    if s.len() > 0 {
        assert(all_digits(s.drop_last()));
        lemma_dec_val_nonneg(s.drop_last());
    }
}

/// A digit string's value is at least the value of any of its prefixes.
pub proof fn lemma_dec_val_prefix(s: Seq<char>, i: int)
    requires
        all_digits(s),
        0 <= i <= s.len(),
    ensures
        dec_val(s.take(i)) <= dec_val(s),
    decreases s.len(),
{
    if i == s.len() {
        assert(s.take(i) =~= s);
    } else {
        assert(all_digits(s.drop_last()));
        assert(s.take(i) =~= s.drop_last().take(i));
        lemma_dec_val_prefix(s.drop_last(), i);
        lemma_dec_val_nonneg(s.drop_last());
    }
}

/// Parses a channel field as `u8::from_str` does: an optional leading `+`,
/// then decimal digits, rejecting empty input, other characters, and values
/// above 255.
pub fn parse_channel(s: &str) -> (r: Option<u8>)
    ensures
        r == parse_u8_spec(s@),
{
    let n = s.unicode_len();
    let start: usize = if n > 0 && s.get_char(0) == '+' {
        1
    } else {
        0
    };
    let ghost body = chan_body(s@);
    proof {
        assert(body =~= s@.subrange(start as int, n as int));
    }
    if n == start {
        return None;
    }
    let mut acc: u32 = 0;
    let mut i: usize = start;
    while i < n
        invariant
            start <= i <= n,
            n == s@.len(),
            start == 0 || start == 1,
            body == chan_body(s@),
            body =~= s@.subrange(start as int, n as int),
            n > start,
            acc <= 255,
            all_digits(s@.subrange(start as int, i as int)),
            acc == dec_val(s@.subrange(start as int, i as int)),
        decreases n - i,
    {
        let c = s.get_char(i);
        let ghost prefix = s@.subrange(start as int, i as int);
        let ghost prefix1 = s@.subrange(start as int, i + 1 as int);
        proof {
            assert(prefix1.drop_last() =~= prefix);
            assert(prefix1.last() == s@[i as int]);
        }
        if !('0' <= c && c <= '9') {
            proof {
                assert(body[i - start] == s@[i as int]);
                assert(!is_digit(body[i - start]));
                assert(!all_digits(body));
                assert(parse_u8_spec(s@) is None);
            }
            return None;
        }
        assert(all_digits(prefix1));
        proof {
            assert('0' as u32 == 48);
        }
        let d: u32 = (c as u32) - 48;
        proof {
            assert(d == c as int - '0' as int);
        }
        acc = acc * 10 + d;
        assert(acc == dec_val(prefix1));
        if acc > 255 {
            proof {
                if all_digits(body) {
                    lemma_dec_val_prefix(body, i + 1 - start);
                    assert(body.take(i + 1 - start) =~= prefix1);
                    assert(dec_val(body) > 255);
                }
                assert(parse_u8_spec(s@) is None);
            }
            return None;
        }
        i += 1;
    }
    proof {
        assert(s@.subrange(start as int, n as int) =~= body);
        assert(body.len() > 0 && all_digits(body) && dec_val(body) <= 255);
    }
    Some(acc as u8)
}

/// The channel a malformed value belongs to.
#[derive(Clone, Copy, PartialEq, Eq, Structural, Debug)]
pub enum Channel {
    Red,
    Green,
    Blue,
}

/// Why a palette could not be built from its source rows.
#[derive(Clone, Copy, PartialEq, Eq, Structural, Debug)]
pub enum LoadError {
    /// The row at this one-based line has no name field.
    MissingName { line: usize },
    /// A channel field at this one-based line does not parse as an integer
    /// in 0..=255.
    InvalidChannel { line: usize, channel: Channel },
}

pub open spec fn mask_view(m: Seq<String>) -> Seq<Seq<char>> {
    m.map_values(|s: String| s@)
}

pub open spec fn rows_view(rows: Seq<Vec<String>>) -> Seq<Seq<String>> {
    rows.map_values(|v: Vec<String>| v@)
}

pub open spec fn mask_contains(mask: Seq<Seq<char>>, name: Seq<char>) -> bool {
    exists|i: int| 0 <= i < mask.len() && mask[i] == name
}

/// A row contributes candidates when it has a name and, under an active
/// filter, its name is listed.
pub open spec fn row_included(row: Seq<String>, use_mask: bool, mask: Seq<Seq<char>>) -> bool {
    row.len() > 3 && (use_mask ==> mask_contains(mask, row[3]@))
}

/// The error a row raises, if any: a missing name first; a filtered-out row
/// raises none; then each channel in red, green, blue order.
pub open spec fn row_error(
    row: Seq<String>,
    use_mask: bool,
    mask: Seq<Seq<char>>,
    line: usize,
) -> Option<LoadError> {
    if row.len() <= 3 {
        Some(LoadError::MissingName { line })
    } else if use_mask && !mask_contains(mask, row[3]@) {
        None
    } else if parse_u8_spec(row[0]@) is None {
        Some(LoadError::InvalidChannel { line, channel: Channel::Red })
    } else if parse_u8_spec(row[1]@) is None {
        Some(LoadError::InvalidChannel { line, channel: Channel::Green })
    } else if parse_u8_spec(row[2]@) is None {
        Some(LoadError::InvalidChannel { line, channel: Channel::Blue })
    } else {
        None
    }
}

/// The color of a row whose channels all parse.
pub open spec fn row_color(row: Seq<String>) -> Color {
    Color {
        r: parse_u8_spec(row[0]@).unwrap(),
        g: parse_u8_spec(row[1]@).unwrap(),
        b: parse_u8_spec(row[2]@).unwrap(),
    }
}

/// The candidates one included row expands to, as (color, name) pairs: the
/// LEVEL darkening alone, or the LEVEL, UP, DOWN variant triple in staircase
/// mode.
pub open spec fn expansion(c: Color, name: Seq<char>, staircase: bool) -> Seq<(Color, Seq<char>)> {
    if staircase {
        seq![
            (scale_color(c, 86), name + " LEVEL"@),
            (c, name + " UP"@),
            (scale_color(c, 71), name + " DOWN"@),
        ]
    } else {
        seq![(scale_color(c, 86), name + " LEVEL"@)]
    }
}

/// The palette built from the first `i` source rows: the concatenation of the
/// expansions of the included rows, or the first error raised. Lines are
/// one-based.
pub open spec fn build_upto(
    rows: Seq<Seq<String>>,
    staircase: bool,
    use_mask: bool,
    mask: Seq<Seq<char>>,
    i: int,
) -> Result<Seq<(Color, Seq<char>)>, LoadError>
    decreases i,
{
    if i <= 0 {
        Ok(seq![])
    } else {
        match build_upto(rows, staircase, use_mask, mask, i - 1) {
            Err(e) => Err(e),
            Ok(s) => match row_error(rows[i - 1], use_mask, mask, i as usize) {
                Some(e) => Err(e),
                None => if row_included(rows[i - 1], use_mask, mask) {
                    Ok(s + expansion(row_color(rows[i - 1]), rows[i - 1][3]@, staircase))
                } else {
                    Ok(s)
                },
            },
        }
    }
}

/// The number of included rows among the first `i`.
pub open spec fn included_upto(
    rows: Seq<Seq<String>>,
    use_mask: bool,
    mask: Seq<Seq<char>>,
    i: int,
) -> int
    decreases i,
{
    if i <= 0 {
        0
    } else {
        included_upto(rows, use_mask, mask, i - 1) + if row_included(
            rows[i - 1],
            use_mask,
            mask,
        ) {
            1int
        } else {
            0int
        }
    }
}

/// Once a row has raised an error, every longer prefix yields that error.
pub proof fn lemma_build_error_persists(
    rows: Seq<Seq<String>>,
    staircase: bool,
    use_mask: bool,
    mask: Seq<Seq<char>>,
    i: int,
    j: int,
)
    requires
        0 <= i <= j,
        build_upto(rows, staircase, use_mask, mask, i) is Err,
    ensures
        build_upto(rows, staircase, use_mask, mask, j) == build_upto(
            rows,
            staircase,
            use_mask,
            mask,
            i,
        ),
    decreases j - i,
{
    if j > i {
        lemma_build_error_persists(rows, staircase, use_mask, mask, i, j - 1);
    }
}

/// A successfully built palette holds one candidate per included row, or
/// three in staircase mode.
pub proof fn lemma_build_len(
    rows: Seq<Seq<String>>,
    staircase: bool,
    use_mask: bool,
    mask: Seq<Seq<char>>,
    i: int,
)
    requires
        0 <= i,
        build_upto(rows, staircase, use_mask, mask, i) is Ok,
    ensures
        build_upto(rows, staircase, use_mask, mask, i)->Ok_0.len() == (if staircase {
            3int
        } else {
            1int
        }) * included_upto(rows, use_mask, mask, i),
    decreases i,
{
    if i > 0 {
        lemma_build_len(rows, staircase, use_mask, mask, i - 1);
    }
}

/// Entries `3k`, `3k+1`, `3k+2` are the LEVEL, UP and DOWN variants of one
/// source color and name.
pub open spec fn variant_group_at(s: Seq<(Color, Seq<char>)>, k: int) -> bool {
    exists|c: Color, base: Seq<char>|
        s[3 * k] == (scale_color(c, 86), base + " LEVEL"@) && s[3 * k + 1] == (
        c,
        base + " UP"@,
        ) && s[3 * k + 2] == (scale_color(c, 71), base + " DOWN"@)
}

/// In staircase mode the built palette is exactly three candidates per
/// included source row; every three consecutive entries are the variants of
/// one source row; and folding an index by `/ 3` keeps each entry inside its
/// own group, so all three variants of a row share one bucket.
pub proof fn lemma_staircase_palette(
    rows: Seq<Seq<String>>,
    use_mask: bool,
    mask: Seq<Seq<char>>,
    n: int,
    s: Seq<(Color, Seq<char>)>,
)
    requires
        0 <= n,
        build_upto(rows, true, use_mask, mask, n) == Ok::<Seq<(Color, Seq<char>)>, LoadError>(s),
    ensures
        s.len() == 3 * included_upto(rows, use_mask, mask, n),
        forall|k: int| 0 <= k < s.len() / 3 ==> variant_group_at(s, k),
        forall|j: int| 0 <= j < s.len() ==> 3 * (#[trigger] (j / 3)) <= j < 3 * (j / 3) + 3,
    decreases n,
{
    assert forall|j: int| 0 <= j < s.len() implies 3 * (#[trigger] (j / 3)) <= j < 3 * (j / 3) + 3 by {
        assert(3 * (j / 3) <= j < 3 * (j / 3) + 3) by (nonlinear_arith)
            requires j >= 0;
    }
    if n == 0 {
        assert(s.len() == 0);
    } else {
        let prev = build_upto(rows, true, use_mask, mask, n - 1);
        let prev_s = prev->Ok_0;
        lemma_staircase_palette(rows, use_mask, mask, n - 1, prev_s);
        let inc_prev = included_upto(rows, use_mask, mask, n - 1);
        if row_error(rows[n - 1], use_mask, mask, n as usize) is None && row_included(
            rows[n - 1],
            use_mask,
            mask,
        ) {
            let c0 = row_color(rows[n - 1]);
            let base0 = rows[n - 1][3]@;
            assert(s == prev_s + expansion(c0, base0, true));
            assert(s.len() == prev_s.len() + 3);
            assert(prev_s.len() == 3 * inc_prev);
            assert forall|k: int| 0 <= k < s.len() / 3 implies variant_group_at(s, k) by {
                assert(s.len() / 3 == inc_prev + 1) by (nonlinear_arith)
                    requires s.len() == 3 * inc_prev + 3 && inc_prev >= 0;
                assert(prev_s.len() / 3 == inc_prev) by (nonlinear_arith)
                    requires prev_s.len() == 3 * inc_prev && inc_prev >= 0;
                if k < inc_prev {
                    assert(variant_group_at(prev_s, k));
                    let (c, base) = choose|c: Color, base: Seq<char>|
                        prev_s[3 * k] == (scale_color(c, 86), base + " LEVEL"@) && prev_s[3 * k
                            + 1] == (c, base + " UP"@) && prev_s[3 * k + 2] == (
                        scale_color(c, 71),
                        base + " DOWN"@,
                        );
                    assert(3 * k + 2 < prev_s.len()) by (nonlinear_arith)
                        requires k < inc_prev && prev_s.len() == 3 * inc_prev && k >= 0;
                    assert(s[3 * k] == prev_s[3 * k]);
                    assert(s[3 * k + 1] == prev_s[3 * k + 1]);
                    assert(s[3 * k + 2] == prev_s[3 * k + 2]);
                    assert(variant_group_at(s, k));
                } else {
                    assert(k == inc_prev);
                    assert(3 * k == prev_s.len());
                    assert(s[3 * k] == expansion(c0, base0, true)[0]);
                    assert(s[3 * k + 1] == expansion(c0, base0, true)[1]);
                    assert(s[3 * k + 2] == expansion(c0, base0, true)[2]);
                    assert(variant_group_at(s, k));
                }
            }
        } else {
            assert(s == prev_s);
        }
    }
}

fn mask_contains_exec(mask: &Vec<String>, name: &String) -> (r: bool)
    ensures
        r == mask_contains(mask_view(mask@), name@),
{
    let mut j: usize = 0;
    while j < mask.len()
        invariant
            j <= mask@.len(),
            forall|k: int| 0 <= k < j ==> mask_view(mask@)[k] != name@,
        decreases mask@.len() - j,
    {
        if mask[j].eq(name) {
            proof {
                assert(mask_view(mask@)[j as int] == name@);
            }
            return true;
        }
        j += 1;
    }
    false
}

pub open spec fn pairs_view(s: Seq<Candidate>) -> Seq<(Color, Seq<char>)> {
    s.map_values(|c: Candidate| (c.color, c.name@))
}

/// Builds the palette from the source rows, expanding each included row into
/// its variant candidates in row order, filtering by name when the mask is
/// active, and failing on the first malformed row.
pub fn build_palette(
    rows: &Vec<Vec<String>>,
    staircase: bool,
    use_mask: bool,
    mask: &Vec<String>,
) -> (r: Result<Palette, LoadError>)
    ensures
        ({
            let spec_r = build_upto(
                rows_view(rows@),
                staircase,
                use_mask,
                mask_view(mask@),
                rows@.len() as int,
            );
            match r {
                Ok(p) => {
                    &&& spec_r matches Ok(s) && pairs_view(p.entries@) == s
                    &&& p.staircase == staircase
                    &&& p.wf()
                },
                Err(e) => spec_r == Err::<Seq<(Color, Seq<char>)>, LoadError>(e),
            }
        }),
{
    let ghost rv = rows_view(rows@);
    let ghost mv = mask_view(mask@);
    let mut entries: Vec<Candidate> = Vec::new();
    proof {
        assert(pairs_view(entries@) =~= Seq::<(Color, Seq<char>)>::empty());
    }
    let mut idx: usize = 0;
    while idx < rows.len()
        invariant
            idx <= rows@.len(),
            rv == rows_view(rows@),
            mv == mask_view(mask@),
            build_upto(rv, staircase, use_mask, mv, idx as int) == Ok::<
                Seq<(Color, Seq<char>)>,
                LoadError,
            >(pairs_view(entries@)),
        decreases rows@.len() - idx,
    {
        let row: &Vec<String> = &rows[idx];
        let line: usize = idx + 1;
        proof {
            assert(rv[idx as int] == row@);
        }
        if row.len() <= 3 {
            proof {
                lemma_build_error_persists(
                    rv,
                    staircase,
                    use_mask,
                    mv,
                    idx + 1,
                    rows@.len() as int,
                );
            }
            return Err(LoadError::MissingName { line });
        }
        let name: &String = &row[3];
        let skipped = use_mask && !mask_contains_exec(mask, name);
        if skipped {
            proof {
                assert(row_error(rv[idx as int], use_mask, mv, line) is None);
                assert(!row_included(rv[idx as int], use_mask, mv));
            }
        } else {
            let r_parsed = parse_channel(row[0].as_str());
            let g_parsed = parse_channel(row[1].as_str());
            let b_parsed = parse_channel(row[2].as_str());
            let rch = match r_parsed {
                Some(v) => v,
                None => {
                    proof {
                        lemma_build_error_persists(
                            rv,
                            staircase,
                            use_mask,
                            mv,
                            idx + 1,
                            rows@.len() as int,
                        );
                    }
                    return Err(LoadError::InvalidChannel { line, channel: Channel::Red });
                },
            };
            let gch = match g_parsed {
                Some(v) => v,
                None => {
                    proof {
                        lemma_build_error_persists(
                            rv,
                            staircase,
                            use_mask,
                            mv,
                            idx + 1,
                            rows@.len() as int,
                        );
                    }
                    return Err(LoadError::InvalidChannel { line, channel: Channel::Green });
                },
            };
            let bch = match b_parsed {
                Some(v) => v,
                None => {
                    proof {
                        lemma_build_error_persists(
                            rv,
                            staircase,
                            use_mask,
                            mv,
                            idx + 1,
                            rows@.len() as int,
                        );
                    }
                    return Err(LoadError::InvalidChannel { line, channel: Channel::Blue });
                },
            };
            let c = Color { r: rch, g: gch, b: bch };
            let ghost before = pairs_view(entries@);
            proof {
                assert(row_color(rv[idx as int]) == c);
                assert(row_error(rv[idx as int], use_mask, mv, line) is None);
                assert(row_included(rv[idx as int], use_mask, mv));
            }
            let n_level = name.clone().concat(" LEVEL");
            entries.push(Candidate { color: level_color(c), name: n_level });
            if staircase {
                let n_up = name.clone().concat(" UP");
                entries.push(Candidate { color: c, name: n_up });
                let n_down = name.clone().concat(" DOWN");
                entries.push(Candidate { color: down_color(c), name: n_down });
            }
            proof {
                assert(pairs_view(entries@) =~= before + expansion(c, name@, staircase));
            }
        }
        idx += 1;
    }
    let p = Palette { entries, staircase };
    proof {
        lemma_build_len(rv, staircase, use_mask, mv, rows@.len() as int);
        if staircase {
            let inc = included_upto(rv, use_mask, mv, rows@.len() as int);
            assert((3 * inc) % 3 == 0) by (nonlinear_arith);
        }
    }
    Ok(p)
}

} // verus!

//! The whole conversion in one call: build the palette from the source rows,
//! quantize the image in place, and emit the instruction lines and the
//! materials summary.

use vstd::prelude::*;
use crate::aggregate::{
    bucket_count, bucket_of, instr_upto, instructions, lines_view, material_lines, material_view,
    materials, tally,
};
use crate::color::Color;
use crate::engine::{lemma_run_choices, no_choices, quantize, run, ConfigError, Image};
use crate::palette::{
    build_palette, build_upto, colors_of, mask_view, names_of, pairs_view, rows_view, LoadError,
};

verus! {

/// Why a conversion run aborts.
#[derive(Clone, Copy, PartialEq, Eq, Structural, Debug)]
pub enum RunError {
    /// The palette source rows are malformed.
    Load(LoadError),
    /// The built palette is empty, so no pixel has a nearest candidate.
    Config(ConfigError),
}

/// The per-bucket tally of a choice array, as a sequence indexed by bucket.
pub open spec fn tally_spec(ch: Seq<Option<usize>>, staircase: bool, nb: int) -> Seq<usize> {
    Seq::new(nb as nat, |b: int| bucket_count(ch, staircase, b, ch.len() as int) as usize)
}

/// Converts the image against the palette built from `rows`: every
/// non-transparent pixel is replaced in place by its nearest candidate (with
/// error diffusion when `dither` is set), and the placement instruction
/// lines and the materials summary are returned. A malformed source row or
/// an empty resulting palette aborts before any pixel is touched.
pub fn convert(
    img: &mut Image,
    rows: &Vec<Vec<String>>,
    staircase: bool,
    dither: bool,
    use_mask: bool,
    mask: &Vec<String>,
) -> (r: Result<(Vec<String>, Vec<(usize, String)>), RunError>)
    requires
        old(img).wf(),
    ensures
        final(img).wf(),
        final(img).width == old(img).width,
        final(img).height == old(img).height,
        final(img).bpp == old(img).bpp,
        ({
            let built = build_upto(
                rows_view(rows@),
                staircase,
                use_mask,
                mask_view(mask@),
                rows@.len() as int,
            );
            let w = old(img).width as int;
            let h = old(img).height as int;
            match r {
                Err(RunError::Load(e)) => built == Err::<Seq<(Color, Seq<char>)>, LoadError>(e)
                    && *final(img) == *old(img),
                Err(RunError::Config(c)) => (built matches Ok(s) && s.len() == 0) && c
                    == ConfigError::EmptyPalette && *final(img) == *old(img),
                Ok(arts) => built matches Ok(s) && s.len() >= 1 && ({
                    let pal = s.map_values(|q: (Color, Seq<char>)| q.0);
                    let names = s.map_values(|q: (Color, Seq<char>)| q.1);
                    let res = run(
                        old(img).buf@,
                        no_choices(w * h),
                        pal,
                        w,
                        h,
                        old(img).bpp as int,
                        dither,
                        w * h,
                    );
                    let nb = if staircase {
                        s.len() as int / 3
                    } else {
                        s.len() as int
                    };
                    &&& final(img).buf@ == res.0
                    &&& lines_view(arts.0@) == instr_upto(res.1, names, w, h, w)
                    &&& material_view(arts.1@) == material_lines(
                        tally_spec(res.1, staircase, nb),
                        names,
                        staircase,
                        nb,
                    )
                }),
            }
        }),
{
    let palette = match build_palette(rows, staircase, use_mask, mask) {
        Ok(p) => p,
        Err(e) => {
            return Err(RunError::Load(e));
        },
    };
    let ghost s = build_upto(
        rows_view(rows@),
        staircase,
        use_mask,
        mask_view(mask@),
        rows@.len() as int,
    )->Ok_0;
    proof {
        assert(colors_of(palette.entries@) =~= s.map_values(|q: (Color, Seq<char>)| q.0));
        assert(names_of(palette.entries@) =~= s.map_values(|q: (Color, Seq<char>)| q.1));
    }
    if palette.entries.len() == 0 {
        return Err(RunError::Config(ConfigError::EmptyPalette));
    }
    let w = img.width;
    let h = img.height;
    let choices = quantize(img, &palette.entries, dither);
    proof {
        lemma_run_choices(
            old(img).buf@,
            no_choices((w * h) as int),
            colors_of(palette.entries@),
            w as int,
            h as int,
            old(img).bpp as int,
            dither,
            (w * h) as int,
        );
    }
    let instr = instructions(&choices, &palette.entries, w, h);
    let n_entries = palette.entries.len();
    let nb: usize = if staircase {
        n_entries / 3
    } else {
        n_entries
    };
    proof {
        if staircase {
            assert(n_entries % 3 == 0);
            assert(3 * (n_entries as int / 3) == n_entries) by (nonlinear_arith)
                requires n_entries >= 0 && n_entries % 3 == 0;
            assert forall|p: int|
                0 <= p < choices@.len() implies (#[trigger] choices@[p] matches Some(k) ==> 0
                <= bucket_of(k as int, true) < nb) by {
                if choices@[p] is Some {
                    let k = choices@[p]->0 as int;
                    assert(0 <= k / 3 && k / 3 < n_entries as int / 3) by (nonlinear_arith)
                        requires 0 <= k < n_entries && n_entries % 3 == 0;
                }
            }
        }
    }
    let counts = tally(&choices, nb, staircase);
    let mats = materials(&counts, &palette.entries, staircase);
    proof {
        assert(counts@ =~= tally_spec(choices@, staircase, nb as int));
    }
    Ok((instr, mats))
}

} // verus!

//! The aggregation pass: walks the recorded choice indices in column-major
//! order to produce the placement instruction lines, and tallies per-bucket
//! usage counts, folding the three staircase variants of a source row into
//! one material bucket.

use vstd::prelude::*;
use crate::engine::lemma_grid_pos;
use crate::palette::{names_of, Candidate};

verus! {

/// The bucket a candidate index is tallied under: the index itself, or its
/// variant group in staircase mode.
pub open spec fn bucket_of(k: int, staircase: bool) -> int {
    if staircase {
        k / 3
    } else {
        k
    }
}

/// How many of the first `n` recorded choices fall into bucket `b`.
pub open spec fn bucket_count(ch: Seq<Option<usize>>, staircase: bool, b: int, n: int) -> int
    decreases n,
{
    if n <= 0 {
        0
    } else {
        bucket_count(ch, staircase, b, n - 1) + (match ch[n - 1] {
            Some(k) => if bucket_of(k as int, staircase) == b {
                1int
            } else {
                0int
            },
            None => 0int,
        })
    }
}

/// How many of the first `n` positions recorded a choice at all.
pub open spec fn some_count(ch: Seq<Option<usize>>, n: int) -> int
    decreases n,
{
    if n <= 0 {
        0
    } else {
        some_count(ch, n - 1) + (if ch[n - 1] is Some {
            1int
        } else {
            0int
        })
    }
}

/// The sum of the first `m` counts.
pub open spec fn sum_prefix(s: Seq<usize>, m: int) -> int
    decreases m,
{
    if m <= 0 {
        0
    } else {
        sum_prefix(s, m - 1) + s[m - 1]
    }
}

spec fn sum_bucket_counts(ch: Seq<Option<usize>>, staircase: bool, nb: int, n: int) -> int
    decreases nb,
{
    if nb <= 0 {
        0
    } else {
        sum_bucket_counts(ch, staircase, nb - 1, n) + bucket_count(ch, staircase, nb - 1, n)
    }
}

proof fn lemma_sum_step(ch: Seq<Option<usize>>, staircase: bool, nb: int, n: int)
    requires
        nb >= 0,
        n >= 1,
    ensures
        sum_bucket_counts(ch, staircase, nb, n) == sum_bucket_counts(ch, staircase, nb, n - 1) + (
        match ch[n - 1] {
            Some(k) => if 0 <= bucket_of(k as int, staircase) < nb {
                1int
            } else {
                0int
            },
            None => 0int,
        }),
    decreases nb,
{
    if nb > 0 {
        lemma_sum_step(ch, staircase, nb - 1, n);
    }
}

proof fn lemma_sum_empty(ch: Seq<Option<usize>>, staircase: bool, nb: int)
    ensures
        sum_bucket_counts(ch, staircase, nb, 0) == 0,
    decreases nb,
{
    if nb > 0 {
        lemma_sum_empty(ch, staircase, nb - 1);
    }
}

proof fn lemma_sum_buckets(ch: Seq<Option<usize>>, staircase: bool, nb: int, n: int)
    requires
        nb >= 0,
        0 <= n <= ch.len(),
        forall|p: int|
            0 <= p < n ==> (#[trigger] ch[p] matches Some(k) ==> 0 <= bucket_of(
                k as int,
                staircase,
            ) < nb),
    ensures
        sum_bucket_counts(ch, staircase, nb, n) == some_count(ch, n),
    decreases n,
{
    if n > 0 {
        lemma_sum_buckets(ch, staircase, nb, n - 1);
        lemma_sum_step(ch, staircase, nb, n);
    } else {
        lemma_sum_empty(ch, staircase, nb);
    }
}

proof fn lemma_sum_prefix_eq(
    counts: Seq<usize>,
    ch: Seq<Option<usize>>,
    staircase: bool,
    nb: int,
    n: int,
)
    requires
        0 <= nb <= counts.len(),
        forall|b: int| 0 <= b < nb ==> counts[b] == bucket_count(ch, staircase, b, n),
    ensures
        sum_prefix(counts, nb) == sum_bucket_counts(ch, staircase, nb, n),
    decreases nb,
{
    if nb > 0 {
        lemma_sum_prefix_eq(counts, ch, staircase, nb - 1, n);
    }
}

/// The tally is conservative: the counts of all buckets sum to exactly the
/// number of positions that recorded a choice, that is, the number of
/// non-transparent pixels processed.
pub proof fn lemma_tally_total(counts: Seq<usize>, ch: Seq<Option<usize>>, staircase: bool)
    requires
        forall|b: int|
            0 <= b < counts.len() ==> counts[b] == bucket_count(
                ch,
                staircase,
                b,
                ch.len() as int,
            ),
        forall|p: int|
            0 <= p < ch.len() ==> (#[trigger] ch[p] matches Some(k) ==> 0 <= bucket_of(
                k as int,
                staircase,
            ) < counts.len()),
    ensures
        sum_prefix(counts, counts.len() as int) == some_count(ch, ch.len() as int),
{
    lemma_sum_buckets(ch, staircase, counts.len() as int, ch.len() as int);
    lemma_sum_prefix_eq(counts, ch, staircase, counts.len() as int, ch.len() as int);
}

/// Counts how many recorded choices fall into each of the `n_buckets`
/// material buckets.
pub fn tally(choices: &Vec<Option<usize>>, n_buckets: usize, staircase: bool) -> (r: Vec<usize>)
    requires
        forall|p: int|
            0 <= p < choices@.len() ==> (#[trigger] choices@[p] matches Some(k) ==> 0 <= bucket_of(
                k as int,
                staircase,
            ) < n_buckets),
    ensures
        r@.len() == n_buckets,
        forall|b: int|
            0 <= b < n_buckets ==> r@[b] == bucket_count(
                choices@,
                staircase,
                b,
                choices@.len() as int,
            ),
{
    let mut counts: Vec<usize> = Vec::new();
    let mut t: usize = 0;
    while t < n_buckets
        invariant
            t <= n_buckets,
            counts@.len() == t,
            forall|b: int| 0 <= b < t ==> counts@[b] == 0,
        decreases n_buckets - t,
    {
        counts.push(0);
        t += 1;
    }
    let mut p: usize = 0;
    while p < choices.len()
        invariant
            p <= choices@.len(),
            counts@.len() == n_buckets,
            forall|q: int|
                0 <= q < choices@.len() ==> (#[trigger] choices@[q] matches Some(k) ==> 0
                    <= bucket_of(k as int, staircase) < n_buckets),
            forall|b: int|
                0 <= b < n_buckets ==> counts@[b] == bucket_count(
                    choices@,
                    staircase,
                    b,
                    p as int,
                ),
            forall|b: int| 0 <= b < n_buckets ==> counts@[b] <= p,
        decreases choices@.len() - p,
    {
        match choices[p] {
            Some(k) => {
                let b: usize = if staircase {
                    k / 3
                } else {
                    k
                };
                let c = counts[b];
                counts[b] = c + 1;
            },
            None => {},
        }
        p += 1;
    }
    counts
}

/// The instruction line contributed by grid position `(x, y)`: the chosen
/// candidate's name, or nothing where the pixel was skipped.
pub open spec fn entry_lines(
    ch: Seq<Option<usize>>,
    names: Seq<Seq<char>>,
    w: int,
    x: int,
    y: int,
) -> Seq<Seq<char>> {
    match ch[y * w + x] {
        Some(k) => seq![names[k as int]],
        None => seq![],
    }
}

/// The lines of column `x` down to row `y`, top to bottom.
pub open spec fn col_upto(
    ch: Seq<Option<usize>>,
    names: Seq<Seq<char>>,
    w: int,
    x: int,
    y: int,
) -> Seq<Seq<char>>
    decreases y,
{
    if y <= 0 {
        seq![]
    } else {
        col_upto(ch, names, w, x, y - 1) + entry_lines(ch, names, w, x, y - 1)
    }
}

/// The line that closes a column: a return marker between columns, the
/// terminal marker after the last.
pub open spec fn marker(x: int, w: int) -> Seq<char> {
    if x == w - 1 {
        "finished!"@
    } else {
        "return to bottom"@
    }
}

/// The instruction lines of the first `x` columns, each column top to bottom
/// followed by its closing marker.
pub open spec fn instr_upto(
    ch: Seq<Option<usize>>,
    names: Seq<Seq<char>>,
    w: int,
    h: int,
    x: int,
) -> Seq<Seq<char>>
    decreases x,
{
    if x <= 0 {
        seq![]
    } else {
        instr_upto(ch, names, w, h, x - 1) + col_upto(ch, names, w, x - 1, h) + seq![
            marker(x - 1, w),
        ]
    }
}

pub open spec fn lines_view(s: Seq<String>) -> Seq<Seq<char>> {
    s.map_values(|t: String| t@)
}

/// Emits the placement instructions: the chosen candidate's name for every
/// recorded position, traversed column-major (columns left to right, each
/// top to bottom), a return marker after every column but the last, and the
/// terminal marker after the last.
pub fn instructions(
    choices: &Vec<Option<usize>>,
    entries: &Vec<Candidate>,
    width: usize,
    height: usize,
) -> (r: Vec<String>)
    requires
        choices@.len() == width * height,
        forall|p: int|
            0 <= p < choices@.len() ==> (#[trigger] choices@[p] matches Some(k) ==> k
                < entries@.len()),
    ensures
        lines_view(r@) == instr_upto(
            choices@,
            names_of(entries@),
            width as int,
            height as int,
            width as int,
        ),
{
    let ghost names = names_of(entries@);
    let mut out: Vec<String> = Vec::new();
    proof {
        assert(lines_view(out@) =~= instr_upto(
            choices@,
            names,
            width as int,
            height as int,
            0,
        ));
    }
    let mut x: usize = 0;
    while x < width
        invariant
            x <= width,
            choices@.len() == width * height,
            names == names_of(entries@),
            forall|p: int|
                0 <= p < choices@.len() ==> (#[trigger] choices@[p] matches Some(k) ==> k
                    < entries@.len()),
            lines_view(out@) == instr_upto(
                choices@,
                names,
                width as int,
                height as int,
                x as int,
            ),
        decreases width - x,
    {
        let ghost col_base = lines_view(out@);
        let mut y: usize = 0;
        while y < height
            invariant
                y <= height,
                x < width,
                choices@.len() == width * height,
                names == names_of(entries@),
                forall|p: int|
                    0 <= p < choices@.len() ==> (#[trigger] choices@[p] matches Some(k) ==> k
                        < entries@.len()),
                col_base == instr_upto(choices@, names, width as int, height as int, x as int),
                lines_view(out@) == col_base + col_upto(
                    choices@,
                    names,
                    width as int,
                    x as int,
                    y as int,
                ),
            decreases height - y,
        {
            let clen = choices.len();
            proof {
                lemma_grid_pos(x as int, y as int, width as int, height as int);
                assert(y * width + x < clen);
            }
            let pos = y * width + x;
            let ghost before = out@;
            match choices[pos] {
                Some(k) => {
                    out.push(entries[k].name.clone());
                    proof {
                        assert(lines_view(out@) =~= lines_view(before).push(
                            entries@[k as int].name@,
                        ));
                        assert(lines_view(out@) =~= col_base + (col_upto(
                            choices@,
                            names,
                            width as int,
                            x as int,
                            y as int,
                        ) + entry_lines(choices@, names, width as int, x as int, y as int)));
                    }
                },
                None => {
                    proof {
                        assert(col_upto(choices@, names, width as int, x as int, y as int)
                            + entry_lines(choices@, names, width as int, x as int, y as int)
                            =~= col_upto(choices@, names, width as int, x as int, y as int));
                    }
                },
            }
            y += 1;
        }
        let ghost before = out@;
        if x + 1 == width {
            out.push("finished!".to_owned());
        } else {
            out.push("return to bottom".to_owned());
        }
        proof {
            assert(lines_view(out@) =~= lines_view(before).push(marker(x as int, width as int)));
            assert(lines_view(out@) =~= instr_upto(
                choices@,
                names,
                width as int,
                height as int,
                x + 1,
            ));
        }
        x += 1;
    }
    out
}

/// The name ends in the `" LEVEL"` variant suffix.
pub open spec fn ends_with_level(s: Seq<char>) -> bool {
    s.len() >= 6 && s.subrange(s.len() - 6, s.len() as int) == " LEVEL"@
}

/// The name with every trailing `" LEVEL"` suffix removed: the display form
/// of a material bucket.
pub open spec fn strip_level(s: Seq<char>) -> Seq<char>
    decreases s.len(),
{
    if ends_with_level(s) {
        strip_level(s.take(s.len() - 6))
    } else {
        s
    }
}

/// Strips trailing `" LEVEL"` suffixes from a candidate name, yielding the
/// base material name.
pub fn strip_level_name(name: &String) -> (r: String)
    ensures
        r@ == strip_level(name@),
{
    let n = name.as_str().unicode_len();
    let mut end: usize = n;
    let mut done = false;
    proof {
        assert(name@.take(n as int) =~= name@);
    }
    while !done
        invariant
            end <= n,
            n == name@.len(),
            strip_level(name@) == strip_level(name@.take(end as int)),
            done ==> !ends_with_level(name@.take(end as int)),
        decreases end + (if done {
            0int
        } else {
            1int
        }),
    {
        if end < 6 {
            done = true;
        } else {
            let c0 = name.as_str().get_char(end - 6);
            let c1 = name.as_str().get_char(end - 5);
            let c2 = name.as_str().get_char(end - 4);
            let c3 = name.as_str().get_char(end - 3);
            let c4 = name.as_str().get_char(end - 2);
            let c5 = name.as_str().get_char(end - 1);
            let hit = c0 == ' ' && c1 == 'L' && c2 == 'E' && c3 == 'V' && c4 == 'E' && c5 == 'L';
            proof {
                reveal_strlit(" LEVEL");
                let t = name@.take(end as int);
                if hit {
                    assert(t.subrange(t.len() - 6, t.len() as int) =~= " LEVEL"@);
                    assert(t.take(t.len() - 6) =~= name@.take(end - 6));
                } else {
                    if ends_with_level(t) {
                        let sub = t.subrange(t.len() - 6, t.len() as int);
                        assert(sub == " LEVEL"@);
                        assert(sub[0] == t[t.len() - 6] && sub[1] == t[t.len() - 5] && sub[2]
                            == t[t.len() - 4] && sub[3] == t[t.len() - 3] && sub[4] == t[t.len()
                            - 2] && sub[5] == t[t.len() - 1]);
                        assert(sub[0] == ' ' && sub[1] == 'L' && sub[2] == 'E' && sub[3] == 'V'
                            && sub[4] == 'E' && sub[5] == 'L');
                        assert(false);
                    }
                }
            }
            if hit {
                end = end - 6;
            } else {
                done = true;
            }
        }
    }
    let out = name.as_str().substring_char(0, end).to_owned();
    proof {
        assert(name@.subrange(0, end as int) =~= name@.take(end as int));
    }
    out
}

pub open spec fn material_view(s: Seq<(usize, String)>) -> Seq<(usize, Seq<char>)> {
    s.map_values(|p: (usize, String)| (p.0, p.1@))
}

/// The materials summary over the first `m` buckets: one (count, base name)
/// pair per bucket with a nonzero count, in ascending bucket order, the name
/// taken from the bucket's representative candidate (index `3b` in staircase
/// mode, `b` otherwise) with its variant suffix stripped.
pub open spec fn material_lines(
    counts: Seq<usize>,
    names: Seq<Seq<char>>,
    staircase: bool,
    m: int,
) -> Seq<(usize, Seq<char>)>
    decreases m,
{
    if m <= 0 {
        seq![]
    } else {
        let prev = material_lines(counts, names, staircase, m - 1);
        if counts[m - 1] == 0 {
            prev
        } else {
            prev + seq![
                (
                    counts[m - 1],
                    strip_level(
                        names[if staircase {
                            3 * (m - 1)
                        } else {
                            m - 1
                        }],
                    ),
                ),
            ]
        }
    }
}

/// Emits the materials summary from the tally: every nonzero bucket in
/// ascending order, as its count with its base material name.
pub fn materials(counts: &Vec<usize>, entries: &Vec<Candidate>, staircase: bool) -> (r: Vec<
    (usize, String),
>)
    requires
        staircase ==> entries@.len() == 3 * counts@.len(),
        !staircase ==> entries@.len() == counts@.len(),
    ensures
        material_view(r@) == material_lines(
            counts@,
            names_of(entries@),
            staircase,
            counts@.len() as int,
        ),
{
    let ghost names = names_of(entries@);
    let mut out: Vec<(usize, String)> = Vec::new();
    proof {
        assert(material_view(out@) =~= material_lines(counts@, names, staircase, 0));
    }
    let mut i: usize = 0;
    while i < counts.len()
        invariant
            i <= counts@.len(),
            names == names_of(entries@),
            staircase ==> entries@.len() == 3 * counts@.len(),
            !staircase ==> entries@.len() == counts@.len(),
            material_view(out@) == material_lines(counts@, names, staircase, i as int),
        decreases counts@.len() - i,
    {
        let c = counts[i];
        if c != 0 {
            let el = entries.len();
            let idx: usize = if staircase {
                proof {
                    assert(3 * i < el);
                }
                3 * i
            } else {
                i
            };
            let nm = strip_level_name(&entries[idx].name);
            let ghost before = out@;
            out.push((c, nm));
            proof {
                assert(material_view(out@) =~= material_view(before).push((c, nm@)));
            }
        }
        i += 1;
    }
    out
}

} // verus!

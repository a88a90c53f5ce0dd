//! The mathematical model of the tokenizer: how one line of a given character
//! length is split into field ranges under a width declaration, and the laws
//! that splitting obeys.

use vstd::prelude::*;

verus! {

/// Splits the tail of a line into one character range per width, starting at
/// `cursor`. A range is a half-open pair of character positions into the line.
///
/// For each width in order, with `rem` the characters left from the cursor to
/// the end of the line:
/// - `rem < width`: with flexible widths the field takes exactly the rest of
///   the line (possibly nothing); otherwise the split fails with the cursor
///   position and the width that could not be satisfied.
/// - `rem == width`: the field takes the rest of the line.
/// - `rem > width`: the field takes exactly `width` characters and the cursor
///   then skips the separator, stopping at the end of the line if the
///   separator would run past it, so that any remaining fields are empty.
pub open spec fn ranges_from(
    line_len: usize,
    widths: Seq<usize>,
    sep_len: usize,
    flexible: bool,
    cursor: usize,
) -> Result<Seq<(usize, usize)>, (usize, usize)>
    decreases widths.len(),
{
    if widths.len() == 0 {
        Ok(Seq::empty())
    } else {
        let w = widths[0];
        if line_len - cursor < w {
            if flexible {
                match ranges_from(line_len, widths.skip(1), sep_len, flexible, line_len) {
                    Ok(rest) => Ok(seq![(cursor, line_len)] + rest),
                    Err(e) => Err(e),
                }
            } else {
                Err((cursor, w))
            }
        } else if line_len - cursor == w {
            match ranges_from(line_len, widths.skip(1), sep_len, flexible, line_len) {
                Ok(rest) => Ok(seq![(cursor, line_len)] + rest),
                Err(e) => Err(e),
            }
        } else {
            let end = (cursor + w) as usize;
            let next = if cursor + w + sep_len <= line_len {
                (cursor + w + sep_len) as usize
            } else {
                line_len
            };
            match ranges_from(line_len, widths.skip(1), sep_len, flexible, next) {
                Ok(rest) => Ok(seq![(cursor, end)] + rest),
                Err(e) => Err(e),
            }
        }
    }
}

/// Every range lies within `[low, line_len]` and is well formed.
pub open spec fn ranges_within(ranges: Seq<(usize, usize)>, low: usize, line_len: usize) -> bool {
    forall|i: int|
        #![trigger ranges[i]]
        0 <= i < ranges.len() ==> low <= ranges[i].0 && ranges[i].0 <= ranges[i].1 && ranges[i].1
            <= line_len
}

/// Consecutive ranges never overlap: each one ends no later than the next
/// one starts.
pub open spec fn ranges_ordered(ranges: Seq<(usize, usize)>) -> bool {
    forall|i: int|
        #![trigger ranges[i]]
        0 <= i && i + 1 < ranges.len() ==> ranges[i].1 <= ranges[i + 1].0
}

/// Law: a successful split yields exactly one range per width, and the ranges
/// are well formed, lie within the line, and are non-decreasing and
/// non-overlapping. Ranges are character positions, so every bound falls on a
/// character boundary by construction.
pub proof fn lemma_ranges_well_formed(
    line_len: usize,
    widths: Seq<usize>,
    sep_len: usize,
    flexible: bool,
    cursor: usize,
)
    requires
        cursor <= line_len,
    ensures
        ranges_from(line_len, widths, sep_len, flexible, cursor) matches Ok(ranges) ==> {
            &&& ranges.len() == widths.len()
            &&& ranges_within(ranges, cursor, line_len)
            &&& ranges_ordered(ranges)
        },
    decreases widths.len(),
{
    if widths.len() == 0 {
    } else {
        let w = widths[0];
        let rest_widths = widths.skip(1);
        if line_len - cursor < w || line_len - cursor == w {
            lemma_ranges_well_formed(line_len, rest_widths, sep_len, flexible, line_len);
            if flexible || line_len - cursor >= w {
                match ranges_from(line_len, rest_widths, sep_len, flexible, line_len) {
                    Ok(rest) => {
                        let ranges = seq![(cursor, line_len)] + rest;
                        assert forall|i: int| 0 <= i < ranges.len() implies cursor
                            <= #[trigger] ranges[i].0 && ranges[i].0 <= ranges[i].1 && ranges[i].1
                            <= line_len by {
                            if i > 0 {
                                assert(ranges[i] == rest[i - 1]);
                            }
                        }
                        assert forall|i: int| 0 <= i && i + 1 < ranges.len() implies #[trigger] ranges[i].1
                            <= ranges[i + 1].0 by {
                            assert(ranges[i + 1] == rest[i]);
                        }
                    },
                    Err(_) => {},
                }
            }
        } else {
            let end = (cursor + w) as usize;
            let next = if cursor + w + sep_len <= line_len {
                (cursor + w + sep_len) as usize
            } else {
                line_len
            };
            lemma_ranges_well_formed(line_len, rest_widths, sep_len, flexible, next);
            match ranges_from(line_len, rest_widths, sep_len, flexible, next) {
                Ok(rest) => {
                    let ranges = seq![(cursor, end)] + rest;
                    assert forall|i: int| 0 <= i < ranges.len() implies cursor
                        <= #[trigger] ranges[i].0 && ranges[i].0 <= ranges[i].1 && ranges[i].1
                        <= line_len by {
                        if i > 0 {
                            assert(ranges[i] == rest[i - 1]);
                        }
                    }
                    assert forall|i: int| 0 <= i && i + 1 < ranges.len() implies #[trigger] ranges[i].1
                        <= ranges[i + 1].0 by {
                        assert(ranges[i + 1] == rest[i]);
                        if i > 0 {
                            assert(ranges[i] == rest[i - 1]);
                        }
                    }
                },
                Err(_) => {},
            }
        }
    }
}

/// The character length a line must have so that every field is exactly as
/// wide as declared, with one separator between consecutive fields: the sum
/// of the widths plus `sep_len` for each of the `widths.len() - 1` gaps.
pub open spec fn exact_line_len(widths: Seq<usize>, sep_len: usize) -> int
    decreases widths.len(),
{
    if widths.len() == 0 {
        0
    } else if widths.len() == 1 {
        widths[0] as int
    } else {
        widths[0] + sep_len + exact_line_len(widths.skip(1), sep_len)
    }
}

proof fn lemma_exact_line_len_nonneg(widths: Seq<usize>, sep_len: usize)
    ensures
        exact_line_len(widths, sep_len) >= 0,
        widths.len() > 0 ==> exact_line_len(widths, sep_len) >= widths[0],
    decreases widths.len(),
{
    if widths.len() > 1 {
        lemma_exact_line_len_nonneg(widths.skip(1), sep_len);
    }
}

proof fn lemma_exact_fit_from(
    line_len: usize,
    widths: Seq<usize>,
    sep_len: usize,
    flexible: bool,
    cursor: usize,
)
    requires
        cursor <= line_len,
        line_len - cursor == exact_line_len(widths, sep_len),
    ensures
        ranges_from(line_len, widths, sep_len, flexible, cursor) matches Ok(ranges) && {
            &&& ranges.len() == widths.len()
            &&& forall|i: int|
                #![trigger ranges[i]]
                0 <= i < ranges.len() ==> ranges[i].1 - ranges[i].0 == widths[i]
        },
    decreases widths.len(),
{
    if widths.len() == 0 {
    } else {
        let w = widths[0];
        let rest_widths = widths.skip(1);
        lemma_exact_line_len_nonneg(rest_widths, sep_len);
        if widths.len() == 1 {
            // rem == w: the one field takes the rest of the line.
            lemma_exact_fit_from(line_len, rest_widths, sep_len, flexible, line_len);
            let ranges = ranges_from(line_len, widths, sep_len, flexible, cursor)->Ok_0;
            assert(ranges =~= seq![(cursor, line_len)]);
        } else if line_len - cursor == w {
            // The separator and every later width must be zero.
            lemma_exact_fit_from(line_len, rest_widths, sep_len, flexible, line_len);
            match ranges_from(line_len, rest_widths, sep_len, flexible, line_len) {
                Ok(rest) => {
                    let ranges = seq![(cursor, line_len)] + rest;
                    assert forall|i: int| 0 <= i < ranges.len() implies (#[trigger] ranges[i]).1
                        - ranges[i].0 == widths[i] by {
                        if i > 0 {
                            assert(ranges[i] == rest[i - 1]);
                        }
                    }
                },
                Err(_) => {
                    assert(false);
                },
            }
        } else {
            let next = (cursor + w + sep_len) as usize;
            lemma_exact_fit_from(line_len, rest_widths, sep_len, flexible, next);
            match ranges_from(line_len, rest_widths, sep_len, flexible, next) {
                Ok(rest) => {
                    let ranges = seq![(cursor, (cursor + w) as usize)] + rest;
                    assert forall|i: int| 0 <= i < ranges.len() implies (#[trigger] ranges[i]).1
                        - ranges[i].0 == widths[i] by {
                        if i > 0 {
                            assert(ranges[i] == rest[i - 1]);
                        }
                    }
                },
                Err(_) => {
                    assert(false);
                },
            }
        }
    }
}

/// Law: a line whose character length is exactly the sum of the widths plus
/// one separator per gap splits successfully, even with flexible widths
/// disabled, into one field per width whose character length equals the
/// declared width.
pub proof fn lemma_exact_length_splits(line: Seq<char>, widths: Seq<usize>, sep_len: usize)
    requires
        widths.len() > 0,
        forall|i: int| #![trigger widths[i]] 0 <= i < widths.len() ==> widths[i] > 0,
        line.len() == exact_line_len(widths, sep_len),
        line.len() <= usize::MAX,
    ensures
        line.len() > 0,
        ranges_from(line.len() as usize, widths, sep_len, false, 0) matches Ok(ranges) && {
            &&& ranges.len() == widths.len()
            &&& forall|i: int|
                #![trigger ranges[i]]
                0 <= i < ranges.len() ==> ranges[i].1 - ranges[i].0 == widths[i]
        },
{
    lemma_exact_line_len_nonneg(widths, sep_len);
    lemma_exact_fit_from(line.len() as usize, widths, sep_len, false, 0);
}

/// Law: with flexible widths, splitting never fails, whatever the line length,
/// the widths and the separator.
pub proof fn lemma_flexible_never_fails(
    line_len: usize,
    widths: Seq<usize>,
    sep_len: usize,
    cursor: usize,
)
    requires
        cursor <= line_len,
    ensures
        ranges_from(line_len, widths, sep_len, true, cursor) is Ok,
    decreases widths.len(),
{
    if widths.len() == 0 {
    } else {
        let w = widths[0];
        if line_len - cursor <= w {
            lemma_flexible_never_fails(line_len, widths.skip(1), sep_len, line_len);
        } else {
            let next = if cursor + w + sep_len <= line_len {
                (cursor + w + sep_len) as usize
            } else {
                line_len
            };
            lemma_flexible_never_fails(line_len, widths.skip(1), sep_len, next);
        }
    }
}

/// Law: with flexible widths, a field that comes up short — its range is
/// narrower than its declared width — runs exactly to the end of the line,
/// and every field after it is an empty range at the end of the line.
pub proof fn lemma_flexible_shortfall(
    line_len: usize,
    widths: Seq<usize>,
    sep_len: usize,
    cursor: usize,
)
    requires
        cursor <= line_len,
    ensures
        ranges_from(line_len, widths, sep_len, true, cursor) matches Ok(ranges) ==> {
            &&& forall|i: int|
                #![trigger ranges[i]]
                0 <= i < ranges.len() && ranges[i].1 - ranges[i].0 < widths[i] ==> ranges[i].1
                    == line_len
            &&& forall|i: int, j: int|
                #![trigger ranges[i], ranges[j]]
                0 <= i < j < ranges.len() && ranges[i].1 - ranges[i].0 < widths[i] ==> ranges[j]
                    == (line_len, line_len)
        },
    decreases widths.len(),
{
    if widths.len() == 0 {
    } else {
        let w = widths[0];
        let rest_widths = widths.skip(1);
        let next = if line_len - cursor <= w {
            line_len
        } else if cursor + w + sep_len <= line_len {
            (cursor + w + sep_len) as usize
        } else {
            line_len
        };
        lemma_flexible_shortfall(line_len, rest_widths, sep_len, next);
        lemma_ranges_well_formed(line_len, rest_widths, sep_len, true, next);
        match ranges_from(line_len, rest_widths, sep_len, true, next) {
            Ok(rest) => {
                let first = if line_len - cursor > w {
                    (cursor, (cursor + w) as usize)
                } else {
                    (cursor, line_len)
                };
                let ranges = seq![first] + rest;
                assert(ranges_from(line_len, widths, sep_len, true, cursor) == Ok::<
                    Seq<(usize, usize)>,
                    (usize, usize),
                >(ranges));
                assert forall|i: int|
                    0 <= i < ranges.len() && (#[trigger] ranges[i]).1 - ranges[i].0
                        < widths[i] implies ranges[i].1 == line_len by {
                    if i > 0 {
                        assert(ranges[i] == rest[i - 1]);
                        assert(rest_widths[i - 1] == widths[i]);
                    }
                }
                assert forall|i: int, j: int|
                    0 <= i < j < ranges.len() && (#[trigger] ranges[i]).1 - ranges[i].0
                        < widths[i] implies #[trigger] ranges[j] == (line_len, line_len) by {
                    assert(ranges[j] == rest[j - 1]);
                    if i == 0 {
                        // The first field was short, so the cursor moved to the
                        // end of the line and every later range is pinned there.
                        assert(line_len - cursor < w);
                        assert(next == line_len);
                        assert(line_len <= rest[j - 1].0 && rest[j - 1].1 <= line_len);
                    } else {
                        assert(ranges[i] == rest[i - 1]);
                        assert(rest_widths[i - 1] == widths[i]);
                    }
                }
            },
            Err(_) => {},
        }
    }
}

/// The position of the first field whose range is narrower than its declared
/// width, or `ranges.len()` when every field is as wide as declared.
pub open spec fn first_short_index(ranges: Seq<(usize, usize)>, widths: Seq<usize>) -> int
    decreases ranges.len(),
{
    if ranges.len() == 0 {
        0
    } else if ranges[0].1 - ranges[0].0 < widths[0] {
        0
    } else {
        1 + first_short_index(ranges.skip(1), widths.skip(1))
    }
}

proof fn lemma_first_short_index_bounds(ranges: Seq<(usize, usize)>, widths: Seq<usize>)
    ensures
        0 <= first_short_index(ranges, widths) <= ranges.len(),
    decreases ranges.len(),
{
    if ranges.len() > 0 && !(ranges[0].1 - ranges[0].0 < widths[0]) {
        lemma_first_short_index_bounds(ranges.skip(1), widths.skip(1));
    }
}

/// Law: disabling flexible widths changes nothing but the handling of the
/// first shortfall. Let `ranges` be the flexible split of a line. If no field
/// is short, the strict split succeeds with the same ranges. Otherwise, with
/// `k` the first short field, the strict split fails with a width mismatch
/// carrying the cursor position at field `k` (the start of its flexible
/// range) and the width `widths[k]` that could not be satisfied — so no
/// ranges are produced for field `k` or any field after it.
pub proof fn lemma_strict_matches_flexible(
    line_len: usize,
    widths: Seq<usize>,
    sep_len: usize,
    cursor: usize,
)
    requires
        cursor <= line_len,
    ensures
        ranges_from(line_len, widths, sep_len, true, cursor) matches Ok(ranges) ==> {
            let k = first_short_index(ranges, widths);
            &&& (k == ranges.len() ==> ranges_from(line_len, widths, sep_len, false, cursor)
                == Ok::<Seq<(usize, usize)>, (usize, usize)>(ranges))
            &&& (k < ranges.len() ==> ranges_from(line_len, widths, sep_len, false, cursor)
                == Err::<Seq<(usize, usize)>, (usize, usize)>((ranges[k].0, widths[k])))
        },
    decreases widths.len(),
{
    if widths.len() == 0 {
    } else {
        let w = widths[0];
        let rest_widths = widths.skip(1);
        if line_len - cursor < w {
            lemma_flexible_never_fails(line_len, rest_widths, sep_len, line_len);
            match ranges_from(line_len, rest_widths, sep_len, true, line_len) {
                Ok(rest) => {
                    let ranges = seq![(cursor, line_len)] + rest;
                    // The first field is short, so the strict split fails there.
                    assert(ranges[0] == (cursor, line_len));
                    assert(first_short_index(ranges, widths) == 0);
                },
                Err(_) => {},
            }
        } else {
            let next = if line_len - cursor == w {
                line_len
            } else if cursor + w + sep_len <= line_len {
                (cursor + w + sep_len) as usize
            } else {
                line_len
            };
            let first = if line_len - cursor == w {
                (cursor, line_len)
            } else {
                (cursor, (cursor + w) as usize)
            };
            lemma_strict_matches_flexible(line_len, rest_widths, sep_len, next);
            lemma_ranges_well_formed(line_len, rest_widths, sep_len, true, next);
            match ranges_from(line_len, rest_widths, sep_len, true, next) {
                Ok(rest) => {
                    let ranges = seq![first] + rest;
                    assert(ranges_from(line_len, widths, sep_len, true, cursor) == Ok::<
                        Seq<(usize, usize)>,
                        (usize, usize),
                    >(ranges));
                    assert(ranges[0] == first);
                    assert(first.1 - first.0 == w);
                    assert(ranges.skip(1) =~= rest);
                    lemma_first_short_index_bounds(rest, rest_widths);
                    let k = first_short_index(ranges, widths);
                    let kr = first_short_index(rest, rest_widths);
                    assert(k == 1 + kr);
                    if kr < rest.len() {
                        assert(ranges[k] == rest[kr]);
                        assert(widths[k] == rest_widths[kr]);
                    }
                },
                Err(_) => {},
            }
        }
    }
}

} // verus!

//! The text the terminal interface shows: durations, truncated labels, the
//! widths of a row's sections, separated info lines and panel titles.
use vstd::prelude::*;
use crate::text::{
    chars_of, decimal, pad2, push_char, push_decimal, push_pad2, push_range, push_str,
    string_from, string_of,
};

verus! {

broadcast use vstd::string::group_string_axioms;

/// `secs` as a clock: `MM:SS`, or `HH:MM:SS` from one hour on, each part
/// padded to two digits (hours may have more).
pub open spec fn duration_text(secs: nat) -> Seq<char> {
    let h = secs / 3600;
    let m = secs % 3600 / 60;
    let s = secs % 60;
    if h > 0 {
        pad2(h) + seq![':'] + pad2(m) + seq![':'] + pad2(s)
    } else {
        pad2(m) + seq![':'] + pad2(s)
    }
}

/// Formats a number of seconds as `MM:SS`, or `HH:MM:SS` from one hour on.
pub fn format_duration(secs: u64) -> (t: String)
    ensures
        t@ == duration_text(secs as nat),
{
    let h = secs / 3600;
    let m = secs % 3600 / 60;
    let s = secs % 60;
    let mut t = String::new();
    if h > 0 {
        push_pad2(&mut t, h);
        push_char(&mut t, ':');
    }
    push_pad2(&mut t, m);
    push_char(&mut t, ':');
    push_pad2(&mut t, s);
    assert(t@ =~= duration_text(secs as nat));
    t
}

/// `s` cut to at most `max` characters: unchanged when it fits, else its first
/// `max - 1` characters and `…` (nothing at all when `max` is 0).
pub open spec fn truncated(s: Seq<char>, max: nat) -> Seq<char> {
    if s.len() <= max {
        s
    } else if max == 0 {
        Seq::empty()
    } else {
        s.take(max - 1).push('…')
    }
}

/// Appends `truncated(v[lo..hi], max)` to `out`.
fn push_truncated(out: &mut String, v: &Vec<char>, lo: usize, hi: usize, max: usize)
    requires
        lo <= hi <= v.len(),
    ensures
        final(out)@ == old(out)@ + truncated(v@.subrange(lo as int, hi as int), max as nat),
{
    let ghost s = v@.subrange(lo as int, hi as int);
    if hi - lo <= max {
        push_range(out, v, lo, hi);
    } else if max == 0 {
        assert(old(out)@ + truncated(s, max as nat) =~= old(out)@);
    } else {
        push_range(out, v, lo, lo + max - 1);
        push_char(out, '…');
        assert(v@.subrange(lo as int, lo + max - 1) =~= s.take(max - 1));
        assert(old(out)@ + v@.subrange(lo as int, lo + max - 1) + seq!['…'] =~= old(out)@
            + truncated(s, max as nat));
    }
}

/// Cuts `s` to at most `max` characters (not bytes), marking a cut with `…`.
pub fn truncate(s: &str, max: usize) -> (t: String)
    ensures
        t@ == truncated(s@, max as nat),
{
    let v = chars_of(s);
    let mut t = String::new();
    push_truncated(&mut t, &v, 0, v.len(), max);
    assert(v@.subrange(0, v@.len() as int) =~= v@);
    assert(t@ =~= truncated(s@, max as nat));
    t
}

/// The width fixed for section `i`: that of the last entry of `fixed` naming it.
pub open spec fn fixed_width_at(fixed: Seq<(usize, usize)>, i: int) -> Option<nat>
    decreases fixed.len(),
{
    if fixed.len() == 0 {
        None
    } else if fixed.last().0 == i {
        Some(fixed.last().1 as nat)
    } else {
        fixed_width_at(fixed.drop_last(), i)
    }
}

/// The total of the fixed widths whose section is one of the `n` sections.
pub open spec fn fixed_total(fixed: Seq<(usize, usize)>, n: nat) -> nat
    decreases fixed.len(),
{
    if fixed.len() == 0 {
        0
    } else {
        fixed_total(fixed.drop_last(), n) + if fixed.last().0 < n {
            fixed.last().1 as nat
        } else {
            0
        }
    }
}

/// Section `i` is the first one without a fixed width.
pub open spec fn is_first_flexible(fixed: Seq<(usize, usize)>, i: int) -> bool {
    &&& fixed_width_at(fixed, i) is None
    &&& forall|j: int| 0 <= j < i ==> #[trigger] fixed_width_at(fixed, j) is Some
}

/// The width of section `i` of `n`: its fixed width; for the first section
/// without one, what the fixed widths leave of `total` (0 when they take it
/// all); 0 for any other.
pub open spec fn section_width(total: nat, n: nat, fixed: Seq<(usize, usize)>, i: int) -> nat {
    match fixed_width_at(fixed, i) {
        Some(w) => w,
        None => if is_first_flexible(fixed, i) && fixed_total(fixed, n) < total {
            (total - fixed_total(fixed, n)) as nat
        } else {
            0
        },
    }
}

/// Splits `total_width` columns among `n` sections: the sections named in
/// `fixed` get their width, the first other section gets what is left (0 when
/// the fixed ones take it all), and the rest get 0.
pub fn calculate_distributed_widths(total_width: usize, n: usize, fixed: &[(usize, usize)]) -> (widths: Vec<usize>)
    ensures
        widths.len() == n,
        forall|i: int|
            0 <= i < n ==> widths@[i] == section_width(total_width as nat, n as nat, fixed@, i),
{
    let mut widths: Vec<usize> = Vec::new();
    let mut is_fixed: Vec<bool> = Vec::new();
    let mut i: usize = 0;
    while i < n
        invariant
            i <= n,
            widths.len() == i,
            is_fixed.len() == i,
            forall|j: int| 0 <= j < i ==> widths@[j] == 0 && !is_fixed@[j],
        decreases n - i,
    {
        widths.push(0);
        is_fixed.push(false);
        i = i + 1;
    }
    let mut sum: usize = 0;
    let mut k: usize = 0;
    while k < fixed.len()
        invariant
            k <= fixed.len(),
            widths.len() == n,
            is_fixed.len() == n,
            sum == if fixed_total(fixed@.take(k as int), n as nat) <= usize::MAX {
                fixed_total(fixed@.take(k as int), n as nat)
            } else {
                usize::MAX as nat
            },
            forall|j: int|
                0 <= j < n ==> (is_fixed@[j] <==> fixed_width_at(fixed@.take(k as int), j) is Some),
            forall|j: int|
                0 <= j < n ==> (#[trigger] fixed_width_at(fixed@.take(k as int), j) matches Some(w)
                    ==> widths@[j] == w),
            forall|j: int|
                0 <= j < n ==> (fixed_width_at(fixed@.take(k as int), j) is None ==> widths@[j]
                    == 0),
        decreases fixed.len() - k,
    {
        let (idx, w) = fixed[k];
        proof {
            assert(fixed@.take(k + 1).drop_last() =~= fixed@.take(k as int));
            assert(fixed@.take(k + 1).last() == fixed@[k as int]);
        }
        if idx < n {
            widths.set(idx, w);
            is_fixed.set(idx, true);
            sum = sum.saturating_add(w);
        }
        k = k + 1;
    }
    assert(fixed@.take(fixed@.len() as int) =~= fixed@);
    let flex = total_width.saturating_sub(sum);
    let mut f: usize = 0;
    while f < n && is_fixed[f]
        invariant
            f <= n,
            is_fixed.len() == n,
            forall|j: int| 0 <= j < f ==> is_fixed@[j],
        decreases n - f,
    {
        f = f + 1;
    }
    if f < n {
        widths.set(f, flex);
    }
    proof {
        assert forall|i: int| 0 <= i < n implies widths@[i] == section_width(
            total_width as nat,
            n as nat,
            fixed@,
            i,
        ) by {
            assert(is_fixed@[i] <==> fixed_width_at(fixed@, i) is Some);
            if fixed_width_at(fixed@, i) is None {
                if is_first_flexible(fixed@, i) {
                    if i > f {
                        assert(fixed_width_at(fixed@, f as int) is Some);
                        assert(is_fixed@[f as int]);
                    }
                    if i < f {
                        assert(is_fixed@[i]);
                    }
                    assert(i == f);
                } else {
                    let j = choose|j: int| 0 <= j < i && fixed_width_at(fixed@, j) is None;
                    assert(!is_fixed@[j]);
                    assert(i != f);
                }
            }
        }
    }
    widths
}

/// The separator between the segments of an info line.
pub open spec fn separator() -> Seq<char> {
    " • "@
}

/// The text of each segment with its bold flag.
pub open spec fn segment_views(segs: Seq<(&str, bool)>) -> Seq<(Seq<char>, bool)> {
    segs.map_values(|p: (&str, bool)| (p.0@, p.1))
}

/// The text of each output span with its bold flag.
pub open spec fn span_views(spans: Seq<(String, bool)>) -> Seq<(Seq<char>, bool)> {
    spans.map_values(|p: (String, bool)| (p.0@, p.1))
}

/// The parts with a plain separator between each two.
pub open spec fn interleave(parts: Seq<(Seq<char>, bool)>) -> Seq<(Seq<char>, bool)>
    decreases parts.len(),
{
    if parts.len() == 0 {
        Seq::empty()
    } else if parts.len() == 1 {
        parts
    } else {
        interleave(parts.drop_last()) + seq![(separator(), false), parts.last()]
    }
}

/// The total length of the segments' texts.
pub open spec fn texts_len(segs: Seq<(Seq<char>, bool)>) -> nat
    decreases segs.len(),
{
    if segs.len() == 0 {
        0
    } else {
        texts_len(segs.drop_last()) + segs.last().0.len()
    }
}

/// The width the segments take in full, separators included.
pub open spec fn natural_width(segs: Seq<(Seq<char>, bool)>) -> nat {
    if segs.len() == 0 {
        0
    } else {
        texts_len(segs) + 3 * (segs.len() - 1) as nat
    }
}

/// The segments from `i` on, each given what is left of `budget` after the
/// ones before it took theirs in full (or what was left), truncated to that
/// width; a segment left with nothing is dropped.
pub open spec fn allot_from(segs: Seq<(Seq<char>, bool)>, i: int, budget: nat) -> Seq<(Seq<char>, bool)>
    decreases segs.len() - i,
{
    if i < 0 || i >= segs.len() {
        Seq::empty()
    } else {
        let len = segs[i].0.len();
        let a = if len <= budget {
            len
        } else {
            budget
        };
        let rest = allot_from(segs, i + 1, (budget - a) as nat);
        if a == 0 {
            rest
        } else {
            seq![(truncated(segs[i].0, a), segs[i].1)] + rest
        }
    }
}

/// An info line of `segs` in `max_width` columns: all of them in full when
/// they fit; else the text budget left by the separators, given out in order,
/// so that the first (primary) segment is cut last.
pub open spec fn separated_line(segs: Seq<(Seq<char>, bool)>, max_width: nat) -> Seq<(Seq<char>, bool)> {
    if natural_width(segs) <= max_width {
        interleave(segs)
    } else {
        let seps = if segs.len() == 0 {
            0
        } else {
            3 * (segs.len() - 1) as nat
        };
        let budget = if seps <= max_width {
            (max_width - seps) as nat
        } else {
            0
        };
        interleave(allot_from(segs, 0, budget))
    }
}

/// The spans with a plain separator between each two.
fn interleave_exec(parts: Vec<(String, bool)>) -> (out: Vec<(String, bool)>)
    ensures
        span_views(out@) == interleave(span_views(parts@)),
{
    let mut out: Vec<(String, bool)> = Vec::new();
    let mut j: usize = 0;
    let ghost pv = span_views(parts@);
    while j < parts.len()
        invariant
            j <= parts.len(),
            pv == span_views(parts@),
            span_views(out@) == interleave(pv.take(j as int)),
        decreases parts.len() - j,
    {
        let ghost before = out@;
        if j > 0 {
            out.push((string_from(" • "), false));
        }
        out.push((parts[j].0.clone(), parts[j].1));
        proof {
            let t = pv.take(j + 1);
            assert(t.drop_last() =~= pv.take(j as int));
            assert(t.last() == pv[j as int]);
            assert(span_views(before).len() == before.len());
            if j == 0 {
                assert(before.len() == 0);
                assert(out@.len() == 1);
                assert(span_views(out@)[0] == pv[0]);
                assert(span_views(out@) =~= interleave(t));
            } else {
                assert(span_views(out@) =~= span_views(before) + seq![
                    (separator(), false),
                    pv[j as int],
                ]);
            }
        }
        j = j + 1;
    }
    assert(pv.take(parts@.len() as int) =~= pv);
    out
}

/// Lays segments out on one line of `max_width` columns, separated by ` • `:
/// in full when they fit, else truncated in order of priority (the first
/// segment is the primary one). Returns the spans with their bold flags; the
/// separators are never bold.
pub fn build_separated_line(segments: &[(&str, bool)], max_width: usize) -> (spans: Vec<(String, bool)>)
    ensures
        span_views(spans@) == separated_line(segment_views(segments@), max_width as nat),
{
    let ghost sv = segment_views(segments@);
    let k = segments.len();
    let mut texts: Vec<Vec<char>> = Vec::new();
    let mut i: usize = 0;
    let mut used: usize = 0;
    let mut fits = true;
    while i < k
        invariant
            i <= k == segments@.len(),
            sv == segment_views(segments@),
            texts.len() == i,
            forall|j: int| 0 <= j < i ==> #[trigger] texts@[j]@ == sv[j].0,
            fits ==> used == natural_width(sv.take(i as int)) && used <= max_width,
            !fits ==> natural_width(sv) > max_width,
        decreases k - i,
    {
        let t = chars_of(segments[i].0);
        proof {
            let a = sv.take(i as int);
            let b = sv.take(i + 1);
            assert(b.drop_last() =~= a);
            assert(b.last() == sv[i as int]);
            assert(sv[i as int].0 == t@);
            lemma_texts_len_prefix(sv, i as int + 1);
            lemma_prefix_width(sv, i as int + 1);
        }
        if fits {
            let extra = if i > 0 { 3usize } else { 0usize };
            if t.len() > max_width - used || extra > max_width - used - t.len() {
                fits = false;
            } else {
                used = used + t.len() + extra;
            }
        }
        texts.push(t);
        i = i + 1;
    }
    assert(sv.take(k as int) =~= sv);
    let mut parts: Vec<(String, bool)> = Vec::new();
    if fits {
        let mut j: usize = 0;
        while j < k
            invariant
                j <= k == segments@.len() == texts.len(),
                forall|m: int| 0 <= m < k ==> #[trigger] texts@[m]@ == sv[m].0,
                sv == segment_views(segments@),
                span_views(parts@) == sv.take(j as int),
            decreases k - j,
        {
            let ghost before = span_views(parts@);
            parts.push((string_of(&texts[j], 0, texts[j].len()), segments[j].1));
            proof {
                assert(sv[j as int] == (segments@[j as int].0@, segments@[j as int].1));
                assert(before.len() == j);
                assert(texts@[j as int]@.subrange(0, texts@[j as int]@.len() as int) =~= texts@[j as int]@);
                assert(span_views(parts@) =~= sv.take(j + 1));
            }
            j = j + 1;
        }
        return interleave_exec(parts);
    }
    let budget: usize = if k == 0 || k - 1 > max_width / 3 {
        0
    } else {
        max_width - 3 * (k - 1)
    };
    let mut remaining = budget;
    let mut j: usize = 0;
    while j < k
        invariant
            j <= k == segments@.len() == texts.len(),
            forall|m: int| 0 <= m < k ==> #[trigger] texts@[m]@ == sv[m].0,
            sv == segment_views(segments@),
            span_views(parts@) + allot_from(sv, j as int, remaining as nat) == allot_from(
                sv,
                0,
                budget as nat,
            ),
        decreases k - j,
    {
        let len = texts[j].len();
        let a = if len <= remaining { len } else { remaining };
        let ghost before = span_views(parts@);
        if a > 0 {
            let mut s = String::new();
            push_truncated(&mut s, &texts[j], 0, len, a);
            proof {
                assert(texts@[j as int]@.subrange(0, len as int) =~= texts@[j as int]@);
            }
            parts.push((s, segments[j].1));
            proof {
                assert(span_views(parts@) =~= before + seq![
                    (truncated(sv[j as int].0, a as nat), sv[j as int].1),
                ]);
            }
        }
        remaining = remaining - a;
        j = j + 1;
    }
    proof {
        assert(span_views(parts@) + allot_from(sv, k as int, remaining as nat) =~= span_views(
            parts@,
        ));
        if k > 0 {
            assert(natural_width(sv) == texts_len(sv) + 3 * (k - 1) as nat);
        }
    }
    interleave_exec(parts)
}

/// A prefix of the segments is no wider than all of them.
proof fn lemma_prefix_width(sv: Seq<(Seq<char>, bool)>, i: int)
    requires
        0 < i <= sv.len(),
    ensures
        natural_width(sv.take(i)) <= natural_width(sv),
        natural_width(sv.take(i)) == texts_len(sv.take(i)) + 3 * (i - 1),
    decreases sv.len() - i,
{
    if i < sv.len() {
        lemma_prefix_width(sv, i + 1);
        lemma_texts_len_prefix(sv, i + 1);
        assert(sv.take(i + 1).take(i) =~= sv.take(i));
    } else {
        assert(sv.take(i) =~= sv);
    }
}

/// The lengths of a prefix add up one segment at a time.
proof fn lemma_texts_len_prefix(sv: Seq<(Seq<char>, bool)>, i: int)
    requires
        0 < i <= sv.len(),
    ensures
        texts_len(sv.take(i)) == texts_len(sv.take(i - 1)) + sv[i - 1].0.len(),
        texts_len(sv.take(i - 1)) <= texts_len(sv.take(i)),
{
    assert(sv.take(i).drop_last() =~= sv.take(i - 1));
}

/// The icon and label of the playback state: no track, loading (a track but
/// no player yet), paused or playing.
pub open spec fn playback_state(has_player: bool, is_paused: bool, has_track: bool) -> (Seq<char>, Seq<char>) {
    if !has_track {
        (""@, "No track"@)
    } else if !has_player {
        ("⏳"@, "Loading…"@)
    } else if is_paused {
        ("⏸"@, "Paused"@)
    } else {
        ("▶"@, "Playing"@)
    }
}

/// The icon and label of the playback state. Without a track there is nothing
/// to show, whatever the player does.
pub fn format_playback_state(has_player: bool, is_paused: bool, has_track: bool) -> (r: (&'static str, &'static str))
    ensures
        (r.0@, r.1@) == playback_state(has_player, is_paused, has_track),
{
    if !has_track {
        ("", "No track")
    } else if !has_player {
        ("⏳", "Loading…")
    } else if is_paused {
        ("⏸", "Paused")
    } else {
        ("▶", "Playing")
    }
}

/// A total duration in a few characters: nothing when unknown (0), `<1m` under
/// a minute, else `Nm` or `Nh Mm`.
pub open spec fn compact_duration(secs: nat) -> Seq<char> {
    let h = secs / 3600;
    let m = secs % 3600 / 60;
    if secs == 0 {
        Seq::empty()
    } else if secs < 60 {
        "<1m"@
    } else if h > 0 {
        decimal(h) + "h "@ + decimal(m) + "m"@
    } else {
        decimal(m) + "m"@
    }
}

/// Appends the compact form of `secs` to `s`.
fn push_compact_duration(s: &mut String, secs: u64)
    ensures
        final(s)@ == old(s)@ + compact_duration(secs as nat),
{
    let h = secs / 3600;
    let m = secs % 3600 / 60;
    if secs == 0 {
        assert(old(s)@ + compact_duration(secs as nat) =~= old(s)@);
    } else if secs < 60 {
        push_str(s, "<1m");
    } else {
        if h > 0 {
            push_decimal(s, h);
            push_str(s, "h ");
        }
        push_decimal(s, m);
        push_str(s, "m");
        assert(s@ =~= old(s)@ + compact_duration(secs as nat));
    }
}

/// `n track` or `n tracks`.
pub open spec fn track_count_text(n: nat) -> Seq<char> {
    decimal(n) + if n == 1 {
        " track"@
    } else {
        " tracks"@
    }
}

/// Appends `n track` or `n tracks` to `s`.
fn push_track_count(s: &mut String, n: usize)
    ensures
        final(s)@ == old(s)@ + track_count_text(n as nat),
{
    push_decimal(s, n as u64);
    if n == 1 {
        push_str(s, " track");
    } else {
        push_str(s, " tracks");
    }
    assert(s@ =~= old(s)@ + track_count_text(n as nat));
}

/// The title of the track panel: the playlist's name; when it has tracks, also
/// their count, their total duration when known, and the window of rows shown.
pub open spec fn panel_title(
    name: Seq<char>,
    tracks: nat,
    first: nat,
    last: nat,
    rows: nat,
    secs: nat,
) -> Seq<char> {
    if tracks == 0 {
        " "@ + name + " "@
    } else {
        let dur = compact_duration(secs);
        " "@ + name + " · "@ + track_count_text(tracks) + (if dur.len() == 0 {
            Seq::empty()
        } else {
            " · "@ + dur
        }) + "  [ "@ + decimal(first) + "–"@ + decimal(last) + " / "@ + decimal(rows) + " ] "@
    }
}

/// The title of the track panel, e.g.
/// ` Live Sets · 42 tracks · 6h 12m  [ 12–20 / 42 ] `.
pub fn track_panel_title(
    name: &str,
    track_count: usize,
    first_row: usize,
    last_row: usize,
    total_rows: usize,
    total_secs: u64,
) -> (t: String)
    ensures
        t@ == panel_title(
            name@,
            track_count as nat,
            first_row as nat,
            last_row as nat,
            total_rows as nat,
            total_secs as nat,
        ),
{
    let mut t = string_from(" ");
    push_str(&mut t, name);
    if track_count == 0 {
        push_str(&mut t, " ");
        return t;
    }
    push_str(&mut t, " · ");
    push_track_count(&mut t, track_count);
    if total_secs > 0 {
        push_str(&mut t, " · ");
        push_compact_duration(&mut t, total_secs);
    }
    push_str(&mut t, "  [ ");
    push_decimal(&mut t, first_row as u64);
    push_str(&mut t, "–");
    push_decimal(&mut t, last_row as u64);
    push_str(&mut t, " / ");
    push_decimal(&mut t, total_rows as u64);
    push_str(&mut t, " ] ");
    proof {
        reveal_strlit("<1m");
        let dur = compact_duration(total_secs as nat);
        if total_secs > 0 {
            if total_secs < 60 {
                assert(dur.len() == 3);
            } else {
                assert(dur.len() > 0);
            }
        }
    }
    assert(t@ =~= panel_title(
        name@,
        track_count as nat,
        first_row as nat,
        last_row as nat,
        total_rows as nat,
        total_secs as nat,
    ));
    t
}

/// The cells of an album's header row: its name behind a fold glyph (`▾` open,
/// `▸` folded), cut to the title column; its track count where the artist goes;
/// its total duration where the duration goes.
pub open spec fn album_cells(name: Seq<char>, tracks: nat, secs: nat, open: bool, width: nat) -> (
    Seq<char>,
    Seq<char>,
    Seq<char>,
) {
    let glyph = if open {
        '▾'
    } else {
        '▸'
    };
    (truncated(seq![glyph, ' '] + name, width), track_count_text(tracks), compact_duration(secs))
}

/// The cells of an album's header row.
pub fn album_header_cells(
    name: &str,
    track_count: usize,
    total_secs: u64,
    open: bool,
    title_width: usize,
) -> (cells: (String, String, String))
    ensures
        (cells.0@, cells.1@, cells.2@) == album_cells(
            name@,
            track_count as nat,
            total_secs as nat,
            open,
            title_width as nat,
        ),
{
    let mut label: Vec<char> = Vec::new();
    label.push(if open { '▾' } else { '▸' });
    label.push(' ');
    let nv = chars_of(name);
    let mut i: usize = 0;
    while i < nv.len()
        invariant
            i <= nv.len(),
            label@ == seq![if open { '▾' } else { '▸' }, ' '] + nv@.take(i as int),
        decreases nv.len() - i,
    {
        label.push(nv[i]);
        i = i + 1;
        assert(label@ =~= seq![if open { '▾' } else { '▸' }, ' '] + nv@.take(i as int));
    }
    assert(nv@.take(nv@.len() as int) =~= nv@);
    let mut title = String::new();
    push_truncated(&mut title, &label, 0, label.len(), title_width);
    assert(label@.subrange(0, label@.len() as int) =~= label@);
    let mut count = String::new();
    push_track_count(&mut count, track_count);
    let mut duration = String::new();
    push_compact_duration(&mut duration, total_secs);
    assert(title@ =~= album_cells(name@, track_count as nat, total_secs as nat, open, title_width as nat).0);
    assert(count@ =~= track_count_text(track_count as nat));
    assert(duration@ =~= compact_duration(total_secs as nat));
    (title, count, duration)
}

/// A truncated label never exceeds its width; a label that fits is left as it
/// is; a cut label fills the width exactly, keeps the start of the text and
/// ends with `…`.
pub proof fn law_truncate_fits(s: Seq<char>, max: nat)
    ensures
        truncated(s, max).len() <= max,
        s.len() <= max ==> truncated(s, max) == s,
        s.len() > max && max > 0 ==> {
            &&& truncated(s, max).len() == max
            &&& truncated(s, max).last() == '…'
            &&& truncated(s, max).take(max - 1) == s.take(max - 1)
        },
{
    if s.len() > max && max > 0 {
        assert(truncated(s, max).take(max - 1) =~= s.take(max - 1));
    }
}

/// A single segment is as long as its text.
proof fn lemma_texts_len_single(e: (Seq<char>, bool))
    ensures
        texts_len(seq![e]) == e.0.len(),
{
    let x = seq![e];
    assert(x.drop_last() =~= Seq::<(Seq<char>, bool)>::empty());
    assert(texts_len(Seq::<(Seq<char>, bool)>::empty()) == 0);
    assert(x.last() == e);
    assert(texts_len(x) == texts_len(x.drop_last()) + x.last().0.len());
}

/// The lengths of two runs of segments add up.
proof fn lemma_texts_len_concat(a: Seq<(Seq<char>, bool)>, b: Seq<(Seq<char>, bool)>)
    ensures
        texts_len(a + b) == texts_len(a) + texts_len(b),
    decreases b.len(),
{
    if b.len() > 0 {
        lemma_texts_len_concat(a, b.drop_last());
        assert((a + b).drop_last() =~= a + b.drop_last());
        assert((a + b).last() == b.last());
    } else {
        assert(a + b =~= a);
    }
}

/// Interleaving separators makes a line exactly as wide as the parts in full.
proof fn lemma_interleave_width(p: Seq<(Seq<char>, bool)>)
    ensures
        texts_len(interleave(p)) == natural_width(p),
        interleave(p).len() > 0 ==> interleave(p)[0] == p[0],
        p.len() > 0 ==> interleave(p).len() > 0,
    decreases p.len(),
{
    reveal_strlit(" • ");
    if p.len() > 1 {
        let q = p.drop_last();
        lemma_interleave_width(q);
        let tail = seq![(separator(), false), p.last()];
        lemma_texts_len_concat(interleave(q), tail);
        assert(tail.drop_last() =~= seq![(separator(), false)]);
        assert(separator().len() == 3);
        lemma_texts_len_single((separator(), false));
        assert(texts_len(tail) == 3 + p.last().0.len());
        assert(q.last() == p[p.len() - 2]);
        assert(p.drop_last() == q);
        assert(texts_len(p) == texts_len(q) + p.last().0.len());
        assert(q[0] == p[0]);
    } else if p.len() == 1 {
        assert(p.drop_last() =~= Seq::<(Seq<char>, bool)>::empty());
    }
}

/// What the segments are allotted never exceeds the budget, keeps no more
/// parts than there are segments left, and is nothing at all for no budget.
proof fn lemma_allot_width(segs: Seq<(Seq<char>, bool)>, i: int, budget: nat)
    requires
        0 <= i <= segs.len(),
    ensures
        texts_len(allot_from(segs, i, budget)) <= budget,
        allot_from(segs, i, budget).len() <= segs.len() - i,
        budget == 0 ==> allot_from(segs, i, budget).len() == 0,
    decreases segs.len() - i,
{
    if i < segs.len() {
        let len = segs[i].0.len();
        let a = if len <= budget {
            len
        } else {
            budget
        };
        lemma_allot_width(segs, i + 1, (budget - a) as nat);
        let rest = allot_from(segs, i + 1, (budget - a) as nat);
        if a > 0 {
            let head = seq![(truncated(segs[i].0, a), segs[i].1)];
            lemma_texts_len_concat(head, rest);
            assert(truncated(segs[i].0, a).len() == a);
            lemma_texts_len_single((truncated(segs[i].0, a), segs[i].1));
            assert(allot_from(segs, i, budget) == head + rest);
        }
    }
}

/// An info line never overflows its width; and when it has to be cut, the
/// primary (first) segment stays whole as long as it fits beside the
/// separators.
pub proof fn law_separated_line_fits(segs: Seq<(Seq<char>, bool)>, max_width: nat)
    ensures
        texts_len(separated_line(segs, max_width)) <= max_width,
        natural_width(segs) > max_width && segs.len() > 0 && segs[0].0.len() > 0 && segs[0].0.len()
            + 3 * (segs.len() - 1) <= max_width ==> separated_line(segs, max_width)[0] == segs[0],
{
    if natural_width(segs) <= max_width {
        lemma_interleave_width(segs);
    } else {
        let seps: nat = if segs.len() == 0 {
            0
        } else {
            3 * (segs.len() - 1) as nat
        };
        let budget: nat = if seps <= max_width {
            (max_width - seps) as nat
        } else {
            0
        };
        let p = allot_from(segs, 0, budget);
        lemma_allot_width(segs, 0, budget);
        lemma_interleave_width(p);
        if segs.len() > 0 && segs[0].0.len() > 0 && segs[0].0.len() + 3 * (segs.len() - 1)
            <= max_width {
            assert(p[0] == (truncated(segs[0].0, segs[0].0.len()), segs[0].1));
            assert(truncated(segs[0].0, segs[0].0.len()) == segs[0].0);
        }
    }
}

/// The sum of `f` over `0..n`.
pub open spec fn sum_upto(f: spec_fn(int) -> nat, n: int) -> nat
    decreases n,
{
    if n <= 0 {
        0
    } else {
        sum_upto(f, n - 1) + f(n - 1)
    }
}

/// Changing a summand changes the sum by the same amount.
proof fn lemma_sum_change_one(f: spec_fn(int) -> nat, g: spec_fn(int) -> nat, n: int, j: int)
    requires
        0 <= j < n,
        forall|i: int| 0 <= i < n && i != j ==> #[trigger] f(i) == g(i),
    ensures
        sum_upto(g, n) + f(j) == sum_upto(f, n) + g(j),
    decreases n,
{
    if n - 1 > j {
        lemma_sum_change_one(f, g, n - 1, j);
    } else {
        lemma_sum_equal(f, g, n - 1);
    }
}

/// Equal summands give equal sums.
proof fn lemma_sum_equal(f: spec_fn(int) -> nat, g: spec_fn(int) -> nat, n: int)
    requires
        forall|i: int| 0 <= i < n ==> #[trigger] f(i) == g(i),
    ensures
        sum_upto(f, n) == sum_upto(g, n),
    decreases n,
{
    if n > 0 {
        lemma_sum_equal(f, g, n - 1);
    }
}

/// The width fixed for section `i`, 0 for a flexible one.
pub open spec fn fixed_part(fixed: Seq<(usize, usize)>, i: int) -> nat {
    match fixed_width_at(fixed, i) {
        Some(w) => w,
        None => 0,
    }
}

/// The entries of `fixed` name different sections, all among the `n`.
pub open spec fn distinct_sections(fixed: Seq<(usize, usize)>, n: nat) -> bool {
    &&& forall|k: int| 0 <= k < fixed.len() ==> #[trigger] fixed[k].0 < n
    &&& forall|k: int, l: int|
        0 <= k < fixed.len() && 0 <= l < fixed.len() && k != l ==> fixed[k].0 != fixed[l].0
}

/// With distinct sections, the fixed widths add up to `fixed_total`.
proof fn lemma_fixed_parts_sum(fixed: Seq<(usize, usize)>, n: nat)
    requires
        distinct_sections(fixed, n),
    ensures
        sum_upto(|i: int| fixed_part(fixed, i), n as int) == fixed_total(fixed, n),
    decreases fixed.len(),
{
    let f = |i: int| fixed_part(fixed, i);
    if fixed.len() == 0 {
        let z = |i: int| 0nat;
        lemma_sum_zero(n as int);
        lemma_sum_equal(f, z, n as int);
    } else {
        let d = fixed.drop_last();
        let (j, w) = fixed.last();
        assert(distinct_sections(d, n)) by {
            assert forall|k: int| 0 <= k < d.len() implies #[trigger] d[k].0 < n by {
                assert(d[k] == fixed[k]);
            }
            assert forall|k: int, l: int|
                0 <= k < d.len() && 0 <= l < d.len() && k != l implies d[k].0 != d[l].0 by {
                assert(d[k] == fixed[k]);
                assert(d[l] == fixed[l]);
            }
        }
        lemma_fixed_parts_sum(d, n);
        let g = |i: int| fixed_part(d, i);
        assert(fixed[fixed.len() - 1].0 < n);
        lemma_not_fixed_in_rest(fixed, j as int);
        assert forall|i: int| 0 <= i < n && i != j implies #[trigger] g(i) == f(i) by {}
        lemma_sum_change_one(g, f, n as int, j as int);
    }
}

/// The last entry's section is named by no earlier entry.
proof fn lemma_not_fixed_in_rest(fixed: Seq<(usize, usize)>, j: int)
    requires
        fixed.len() > 0,
        fixed.last().0 == j,
        forall|k: int, l: int|
            0 <= k < fixed.len() && 0 <= l < fixed.len() && k != l ==> fixed[k].0 != fixed[l].0,
    ensures
        fixed_width_at(fixed.drop_last(), j) is None,
{
    lemma_fixed_width_at_none(fixed.drop_last(), j, fixed);
}

/// A section named by no entry of `d` has no fixed width in `d`.
proof fn lemma_fixed_width_at_none(d: Seq<(usize, usize)>, j: int, fixed: Seq<(usize, usize)>)
    requires
        d.len() < fixed.len(),
        forall|k: int| 0 <= k < d.len() ==> d[k] == fixed[k],
        fixed.last().0 == j,
        forall|k: int, l: int|
            0 <= k < fixed.len() && 0 <= l < fixed.len() && k != l ==> fixed[k].0 != fixed[l].0,
    ensures
        fixed_width_at(d, j) is None,
    decreases d.len(),
{
    if d.len() > 0 {
        assert(d.last() == fixed[d.len() - 1]);
        assert(fixed[d.len() - 1].0 != fixed[fixed.len() - 1].0);
        lemma_fixed_width_at_none(d.drop_last(), j, fixed);
    }
}

/// A sum of zeros is zero.
proof fn lemma_sum_zero(n: int)
    ensures
        sum_upto(|i: int| 0nat, n) == 0,
    decreases n,
{
    if n > 0 {
        lemma_sum_zero(n - 1);
    }
}

/// When the fixed sections name different sections, leave room, and some
/// section is flexible, the sections fill the width exactly.
pub proof fn law_distributed_widths_fill(total: nat, n: nat, fixed: Seq<(usize, usize)>)
    requires
        distinct_sections(fixed, n),
        fixed_total(fixed, n) <= total,
        exists|i: int| 0 <= i < n && #[trigger] fixed_width_at(fixed, i) is None,
    ensures
        sum_upto(|i: int| section_width(total, n, fixed, i), n as int) == total,
{
    let f = |i: int| fixed_part(fixed, i);
    let s = |i: int| section_width(total, n, fixed, i);
    lemma_fixed_parts_sum(fixed, n);
    let j0 = choose|i: int| 0 <= i < n && #[trigger] fixed_width_at(fixed, i) is None;
    let j = lemma_first_flexible(fixed, j0);
    assert forall|i: int| 0 <= i < n && i != j implies #[trigger] f(i) == s(i) by {
        if fixed_width_at(fixed, i) is None {
            if is_first_flexible(fixed, i) {
                if i < j {
                    assert(fixed_width_at(fixed, i) is Some);
                } else {
                    assert(fixed_width_at(fixed, j) is Some);
                }
            }
        }
    }
    lemma_sum_change_one(f, s, n as int, j);
    if fixed_total(fixed, n) == total {
        assert(s(j) == 0);
    }
}

/// The first flexible section at or before `j0`.
proof fn lemma_first_flexible(fixed: Seq<(usize, usize)>, j0: int) -> (j: int)
    requires
        0 <= j0,
        fixed_width_at(fixed, j0) is None,
    ensures
        0 <= j <= j0,
        is_first_flexible(fixed, j),
    decreases j0,
{
    if forall|k: int| 0 <= k < j0 ==> #[trigger] fixed_width_at(fixed, k) is Some {
        j0
    } else {
        let k = choose|k: int| 0 <= k < j0 && #[trigger] fixed_width_at(fixed, k) is None;
        lemma_first_flexible(fixed, k)
    }
}

} // verus!

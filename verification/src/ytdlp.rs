//! What the library reads from, and decides about, the `yt-dlp` tool.
use vstd::prelude::*;
use vstd::utf8::{decode_utf8, valid_utf8};
use crate::text::{
    chars_of, contains_exec, contains_seq, ends_with, ends_with_exec, in_class, index_of_char, is_ws,
    lemma_run_len, lemma_run_len_members, lemma_run_len_skip, occurs_at, occurs_at_exec,
    push_str, run_end, run_len, slice_vec, starts_with, string_from, string_of, trim,
    trim_bounds, trim_end, trim_start, CharClass,
};

verus! {

broadcast use vstd::string::group_string_axioms;

/// `s` with every leading repetition of `p` removed, as
/// `str::trim_start_matches` does for a non-empty pattern.
pub open spec fn strip_all(s: Seq<char>, p: Seq<char>) -> Seq<char>
    decreases s.len(),
{
    if p.len() > 0 && starts_with(s, p) {
        strip_all(s.skip(p.len() as int), p)
    } else {
        s
    }
}

/// The bare domain of a URL: the text before the first `/` once every leading
/// `https://`, then `http://`, then `www.` is stripped.
pub open spec fn domain_of(url: Seq<char>) -> Seq<char> {
    let rest = strip_all(strip_all(strip_all(url, "https://"@), "http://"@), "www."@);
    rest.take(index_of_char(rest, '/') as int)
}

/// The position in `v` where repeatedly stripping `pat` from `v[from..]` stops.
fn strip_all_from(v: &Vec<char>, from: usize, pat: &Vec<char>) -> (r: usize)
    requires
        from <= v.len(),
    ensures
        from <= r <= v.len(),
        v@.skip(r as int) == strip_all(v@.skip(from as int), pat@),
{
    let mut pos = from;
    while pat.len() > 0 && occurs_at_exec(v, pat, pos)
        invariant
            from <= pos <= v.len(),
            strip_all(v@.skip(from as int), pat@) == strip_all(v@.skip(pos as int), pat@),
        decreases v.len() - pos,
    {
        proof {
            let t = v@.skip(pos as int);
            assert(t.subrange(0, pat@.len() as int) =~= v@.subrange(
                pos as int,
                pos + pat@.len(),
            ));
            assert(t.skip(pat@.len() as int) =~= v@.skip(pos + pat@.len()));
        }
        pos = pos + pat.len();
    }
    proof {
        let t = v@.skip(pos as int);
        if pat@.len() > 0 && pos + pat@.len() <= v@.len() {
            assert(t.subrange(0, pat@.len() as int) =~= v@.subrange(
                pos as int,
                pos + pat@.len(),
            ));
        }
    }
    pos
}

/// Extract the bare domain from a URL (e.g. "youtube.com" from
/// "https://www.youtube.com/...").
pub fn extract_domain(url: &str) -> (domain: String)
    ensures
        domain@ == domain_of(url@),
{
    let v = chars_of(url);
    let a = strip_all_from(&v, 0, &chars_of("https://"));
    let b = strip_all_from(&v, a, &chars_of("http://"));
    let c = strip_all_from(&v, b, &chars_of("www."));
    let e = run_end(&v, c, &CharClass::Not('/'));
    proof {
        assert(v@.skip(0) =~= v@);
        lemma_run_len_skip(v@, c as int, 0, CharClass::Not('/'));
        assert(v@.skip(c as int).take(e - c) =~= v@.subrange(c as int, e as int));
    }
    string_of(&v, c, e)
}

/// The pieces of `s` between `\n` characters, in order.
pub open spec fn lines(s: Seq<char>) -> Seq<Seq<char>>
    decreases s.len(),
{
    let k = index_of_char(s, '\n');
    if k < s.len() {
        seq![s.take(k as int)] + lines(s.skip((k + 1) as int))
    } else {
        seq![s]
    }
}

/// The first of `ls` that is not blank, trimmed.
pub open spec fn first_nonblank(ls: Seq<Seq<char>>) -> Option<Seq<char>>
    decreases ls.len(),
{
    if ls.len() == 0 {
        None
    } else if trim(ls[0]).len() > 0 {
        Some(trim(ls[0]))
    } else {
        first_nonblank(ls.drop_first())
    }
}

/// The direct stream URL in what `yt-dlp --get-url` printed: its first
/// non-blank line, trimmed. A format selector that resolves to separate audio
/// and video streams makes `yt-dlp` print one URL per line.
pub fn first_url_line(output: &str) -> (url: Option<String>)
    ensures
        url matches Some(u) ==> first_nonblank(lines(output@)) == Some(u@),
        url is None <==> first_nonblank(lines(output@)) is None,
{
    let v = chars_of(output);
    let mut pos: usize = 0;
    proof {
        assert(v@.skip(0) =~= v@);
    }
    loop
        invariant
            pos <= v.len(),
            v@ == output@,
            first_nonblank(lines(v@)) == first_nonblank(lines(v@.skip(pos as int))),
        decreases v.len() - pos,
    {
        let k = run_end(&v, pos, &CharClass::Not('\n'));
        let (a, b) = trim_bounds(&v, pos, k);
        proof {
            let t = v@.skip(pos as int);
            lemma_run_len_skip(v@, pos as int, 0, CharClass::Not('\n'));
            assert(index_of_char(t, '\n') == k - pos);
            assert(t.take(k - pos) =~= v@.subrange(pos as int, k as int));
            let ls = lines(t);
            if k < v.len() {
                assert(t.skip(k - pos + 1) =~= v@.skip(k + 1));
                assert(ls[0] == v@.subrange(pos as int, k as int));
                assert(ls.drop_first() =~= lines(v@.skip(k + 1)));
            } else {
                assert(t =~= v@.subrange(pos as int, k as int));
                assert(ls[0] == v@.subrange(pos as int, k as int));
                assert(ls.drop_first() =~= Seq::<Seq<char>>::empty());
            }
        }
        let ghost ls = lines(v@.skip(pos as int));
        if a < b {
            assert(first_nonblank(ls) == Some(trim(ls[0])));
            return Some(string_of(&v, a, b));
        }
        assert(first_nonblank(ls) == first_nonblank(ls.drop_first()));
        if k == v.len() {
            return None;
        }
        pos = k + 1;
    }
}

/// The percentage text of a progress line at position `p`: `[download]`, at
/// least one blank, then digits and dots directly followed by `%`.
pub open spec fn progress_capture_at(s: Seq<char>, p: int) -> Option<Seq<char>> {
    let q = p + "[download]"@.len();
    let r = q + run_len(s, q, CharClass::Blank);
    let e = r + run_len(s, r, CharClass::DigitOrDot);
    if occurs_at(s, "[download]"@, p) && r > q && e > r && e < s.len() && s[e] == '%' {
        Some(s.subrange(r, e))
    } else {
        None
    }
}

/// The leftmost progress capture in `s` at or after `p`.
pub open spec fn progress_from(s: Seq<char>, p: int) -> Option<Seq<char>>
    decreases s.len() - p,
{
    if p < 0 || p >= s.len() {
        None
    } else if progress_capture_at(s, p) is Some {
        progress_capture_at(s, p)
    } else {
        progress_from(s, p + 1)
    }
}

/// The percentage text of a `yt-dlp` progress line such as
/// `[download]  42.5% of 3.20MiB`: the leftmost match of
/// `\[download\]\s+([\d.]+)%`, with `\d` any Unicode decimal digit. `None`
/// when the line reports no progress.
pub fn parse_progress_line(line: &str) -> (pct: Option<String>)
    ensures
        pct matches Some(t) ==> progress_from(line@, 0) == Some(t@),
        pct is None <==> progress_from(line@, 0) is None,
{
    let v = chars_of(line);
    let tag = chars_of("[download]");
    let mut p: usize = 0;
    while p < v.len()
        invariant
            p <= v.len(),
            v@ == line@,
            tag@ == "[download]"@,
            progress_from(v@, 0) == progress_from(v@, p as int),
        decreases v.len() - p,
    {
        if occurs_at_exec(&v, &tag, p) {
            let q = p + tag.len();
            let r = run_end(&v, q, &CharClass::Blank);
            let e = run_end(&v, r, &CharClass::DigitOrDot);
            if r > q && e > r && e < v.len() && v[e] == '%' {
                assert(progress_capture_at(v@, p as int) == Some(v@.subrange(r as int, e as int)));
                return Some(string_of(&v, r, e));
            }
        }
        assert(progress_capture_at(v@, p as int) is None);
        p = p + 1;
    }
    None
}

/// The path a `Destination:` line names at position `p`: after
/// `[download] Destination: ` or `[ExtractAudio] Destination: `, the rest of the
/// line (at least one character), trimmed.
pub open spec fn destination_capture_at(s: Seq<char>, p: int) -> Option<Seq<char>> {
    let dl = "[download] Destination: "@;
    let xa = "[ExtractAudio] Destination: "@;
    let q = if occurs_at(s, dl, p) {
        p + dl.len()
    } else {
        p + xa.len()
    };
    let e = q + run_len(s, q, CharClass::Not('\n'));
    if (occurs_at(s, dl, p) || occurs_at(s, xa, p)) && e > q {
        Some(trim(s.subrange(q, e)))
    } else {
        None
    }
}

/// The leftmost destination capture in `s` at or after `p`.
pub open spec fn destination_from(s: Seq<char>, p: int) -> Option<Seq<char>>
    decreases s.len() - p,
{
    if p < 0 || p >= s.len() {
        None
    } else if destination_capture_at(s, p) is Some {
        destination_capture_at(s, p)
    } else {
        destination_from(s, p + 1)
    }
}

/// The file a `yt-dlp` line says it writes: the leftmost match of
/// `\[(download|ExtractAudio)\] Destination: (.+)`, trimmed. With
/// `-x --audio-format opus` the `[ExtractAudio]` line is often the only one,
/// and it names the file that survives conversion.
pub fn parse_destination_line(line: &str) -> (path: Option<String>)
    ensures
        path matches Some(t) ==> destination_from(line@, 0) == Some(t@),
        path is None <==> destination_from(line@, 0) is None,
{
    let v = chars_of(line);
    let dl = chars_of("[download] Destination: ");
    let xa = chars_of("[ExtractAudio] Destination: ");
    let mut p: usize = 0;
    while p < v.len()
        invariant
            p <= v.len(),
            v@ == line@,
            dl@ == "[download] Destination: "@,
            xa@ == "[ExtractAudio] Destination: "@,
            destination_from(v@, 0) == destination_from(v@, p as int),
        decreases v.len() - p,
    {
        let at_dl = occurs_at_exec(&v, &dl, p);
        let at_xa = occurs_at_exec(&v, &xa, p);
        if at_dl || at_xa {
            let q = if at_dl {
                p + dl.len()
            } else {
                p + xa.len()
            };
            let e = run_end(&v, q, &CharClass::Not('\n'));
            if e > q {
                let (a, b) = trim_bounds(&v, q, e);
                assert(destination_capture_at(v@, p as int) == Some(
                    v@.subrange(a as int, b as int),
                ));
                return Some(string_of(&v, a, b));
            }
        }
        assert(destination_capture_at(v@, p as int) is None);
        p = p + 1;
    }
    None
}

/// `name` is a scratch file `yt-dlp` leaves behind while downloading `id`:
/// `<id>.<rest>` where `rest` ends in `.part`, `.ytdl` or `.temp`, or holds a
/// `.part-Frag` fragment marker.
pub open spec fn partial_artifact(name: Seq<char>, id: Seq<char>) -> bool {
    let head = id.push('.');
    let rest = name.skip(head.len() as int);
    &&& starts_with(name, head)
    &&& {
        ||| ends_with(rest, ".part"@)
        ||| ends_with(rest, ".ytdl"@)
        ||| ends_with(rest, ".temp"@)
        ||| contains_seq(rest, ".part-Frag"@)
    }
}

/// Whether `file_name` is one of the scratch files a download of `video_id`
/// leaves behind (`.part`, `.part-FragN`, `.ytdl`, `.temp`). A file of another
/// id that merely starts with `video_id` is not one.
pub fn is_partial_artifact(file_name: &str, video_id: &str) -> (partial: bool)
    ensures
        partial == partial_artifact(file_name@, video_id@),
{
    let v = chars_of(file_name);
    let mut head = chars_of(video_id);
    head.push('.');
    if !occurs_at_exec(&v, &head, 0) {
        return false;
    }
    let rest = slice_vec(&v, head.len(), v.len());
    assert(rest@ =~= v@.skip(head@.len() as int));
    ends_with_exec(&rest, &chars_of(".part")) || ends_with_exec(&rest, &chars_of(".ytdl"))
        || ends_with_exec(&rest, &chars_of(".temp")) || contains_exec(
        &rest,
        &chars_of(".part-Frag"),
    )
}

/// The position of the last `.` in `f`, or -1 when there is none.
pub open spec fn last_dot(f: Seq<char>) -> int
    decreases f.len(),
{
    if f.len() == 0 {
        -1
    } else if f.last() == '.' {
        f.len() - 1
    } else {
        last_dot(f.drop_last())
    }
}

/// The stem of a file name, as `Path::file_stem` gives it: the name before its
/// last `.`, or the whole name when it has no `.`, when its only `.` leads it,
/// or when it is `..`.
pub open spec fn file_stem(f: Seq<char>) -> Seq<char> {
    if f == ".."@ || last_dot(f) <= 0 {
        f
    } else {
        f.take(last_dot(f))
    }
}

/// `f` names the finished Opus download of `id`.
pub open spec fn is_opus_of(f: Seq<char>, id: Seq<char>) -> bool {
    f == id + ".opus"@
}

/// The first position at or after `i` whose name is the Opus download of `id`
/// (when `by_stem` is false) or has the stem `id` (when it is true).
pub open spec fn first_match_from(names: Seq<Seq<char>>, id: Seq<char>, by_stem: bool, i: int) -> Option<int>
    decreases names.len() - i,
{
    if i < 0 || i >= names.len() {
        None
    } else if (if by_stem {
        file_stem(names[i]) == id
    } else {
        is_opus_of(names[i], id)
    }) {
        Some(i)
    } else {
        first_match_from(names, id, by_stem, i + 1)
    }
}

/// The finished download of `id` among `names`: the first `<id>.opus` if there
/// is one, else the first name whose stem is `id`.
pub open spec fn downloaded_choice(names: Seq<Seq<char>>, id: Seq<char>) -> Option<int> {
    match first_match_from(names, id, false, 0) {
        Some(i) => Some(i),
        None => first_match_from(names, id, true, 0),
    }
}

/// `last_dot` read off a scan from the end.
proof fn lemma_last_dot(f: Seq<char>, j: int)
    requires
        0 <= j <= f.len(),
        forall|k: int| j <= k < f.len() ==> #[trigger] f[k] != '.',
        j > 0 ==> f[j - 1] == '.',
    ensures
        last_dot(f) == j - 1,
    decreases f.len() - j,
{
    if j < f.len() {
        let g = f.drop_last();
        assert forall|k: int| j <= k < g.len() implies #[trigger] g[k] != '.' by {
            assert(g[k] == f[k]);
        }
        if j > 0 {
            assert(g[j - 1] == f[j - 1]);
        }
        lemma_last_dot(g, j);
    }
}

/// Whether `v[lo..hi]` is exactly `w`.
fn range_is(v: &Vec<char>, lo: usize, hi: usize, w: &Vec<char>) -> (b: bool)
    requires
        lo <= hi <= v.len(),
    ensures
        b == (v@.subrange(lo as int, hi as int) == w@),
{
    if hi - lo != w.len() {
        return false;
    }
    let b = occurs_at_exec(v, w, lo);
    proof {
        if !b {
            assert(v@.subrange(lo as int, hi as int) != w@);
        }
    }
    b
}

/// Whether the stem of the file name `v` is `id`.
fn stem_is(v: &Vec<char>, id: &Vec<char>) -> (b: bool)
    ensures
        b == (file_stem(v@) == id@),
{
    let mut j = v.len();
    while j > 0 && v[j - 1] != '.'
        invariant
            j <= v.len(),
            forall|k: int| j <= k < v.len() ==> #[trigger] v@[k] != '.',
        decreases j,
    {
        j = j - 1;
    }
    proof {
        lemma_last_dot(v@, j as int);
    }
    let dots = chars_of("..");
    if range_is(v, 0, v.len(), &dots) || j <= 1 {
        proof {
            assert(v@.subrange(0, v@.len() as int) =~= v@);
        }
        range_is(v, 0, v.len(), id)
    } else {
        proof {
            assert(v@.subrange(0, v@.len() as int) =~= v@);
            assert(v@.take(j - 1) =~= v@.subrange(0, j - 1));
        }
        range_is(v, 0, j - 1, id)
    }
}

/// The first position at or after `from` whose name matches, as
/// `first_match_from` describes it.
fn first_match_exec(names: &Vec<String>, id: &Vec<char>, by_stem: bool) -> (r: Option<usize>)
    ensures
        r matches Some(i) ==> first_match_from(names@.map_values(|n: String| n@), id@, by_stem, 0)
            == Some(i as int),
        r is None ==> first_match_from(names@.map_values(|n: String| n@), id@, by_stem, 0) is None,
{
    let ghost ns = names@.map_values(|n: String| n@);
    let mut opus = id.clone();
    let ext = chars_of(".opus");
    let mut k: usize = 0;
    while k < ext.len()
        invariant
            k <= ext.len(),
            opus@ == id@ + ext@.take(k as int),
        decreases ext.len() - k,
    {
        opus.push(ext[k]);
        k = k + 1;
        assert(opus@ =~= id@ + ext@.take(k as int));
    }
    assert(ext@.take(ext@.len() as int) =~= ext@);
    let mut i: usize = 0;
    while i < names.len()
        invariant
            i <= names.len(),
            ns == names@.map_values(|n: String| n@),
            opus@ == id@ + ".opus"@,
            first_match_from(ns, id@, by_stem, 0) == first_match_from(ns, id@, by_stem, i as int),
        decreases names.len() - i,
    {
        let v = chars_of(names[i].as_str());
        assert(ns[i as int] == v@);
        let hit = if by_stem {
            stem_is(&v, id)
        } else {
            range_is(&v, 0, v.len(), &opus)
        };
        proof {
            assert(v@.subrange(0, v@.len() as int) =~= v@);
        }
        if hit {
            return Some(i);
        }
        i = i + 1;
    }
    None
}

/// Which of the file names found in the download directory is the finished
/// download of `video_id`: the first `<video_id>.opus`, else the first name
/// whose stem is `video_id`.
pub fn choose_downloaded_file(names: &Vec<String>, video_id: &str) -> (choice: Option<usize>)
    ensures
        choice matches Some(i) ==> downloaded_choice(names@.map_values(|n: String| n@), video_id@)
            == Some(i as int),
        choice is None ==> downloaded_choice(names@.map_values(|n: String| n@), video_id@) is None,
{
    let id = chars_of(video_id);
    match first_match_exec(names, &id, false) {
        Some(i) => Some(i),
        None => first_match_exec(names, &id, true),
    }
}

/// The advice shown when `yt-dlp` fails the way it does when YouTube changed
/// something on its side.
pub open spec fn youtube_hint() -> Seq<char> {
    "YouTube may have changed something — try updating yt-dlp"@
}

/// `err` reads like YouTube blocking `yt-dlp`: a 403, a bot check, a missing
/// PO token, only images on offer, or a format that is suddenly unavailable.
pub open spec fn youtube_blocked(err: Seq<char>) -> bool {
    ||| contains_seq(err, "HTTP Error 403"@)
    ||| contains_seq(err, "Sign in to confirm"@)
    ||| contains_seq(err, "PO Token"@)
    ||| contains_seq(err, "Only images are available"@)
    ||| contains_seq(err, "Requested format is not available"@)
}

/// The update hint for a `yt-dlp` error that looks like YouTube blocking it,
/// `None` for any other error.
pub fn blocked_by_youtube_hint(err: &str) -> (hint: Option<&'static str>)
    ensures
        hint is Some <==> youtube_blocked(err@),
        hint matches Some(h) ==> h@ == youtube_hint(),
{
    let v = chars_of(err);
    if contains_exec(&v, &chars_of("HTTP Error 403")) || contains_exec(
        &v,
        &chars_of("Sign in to confirm"),
    ) || contains_exec(&v, &chars_of("PO Token")) || contains_exec(
        &v,
        &chars_of("Only images are available"),
    ) || contains_exec(&v, &chars_of("Requested format is not available")) {
        Some("YouTube may have changed something — try updating yt-dlp")
    } else {
        None
    }
}

/// What went wrong while talking to `yt-dlp`.
#[derive(Debug)]
pub enum YtDlpError {
    /// The metadata query exited unsuccessfully; what it wrote to stderr.
    Failed { stderr: String },
    /// Its JSON output did not parse.
    InvalidJson,
    /// Its JSON output lacks the `id` field.
    MissingId,
    /// The stream URL query exited unsuccessfully; what it wrote to stderr.
    GetUrlFailed { stderr: String },
    /// The stream URL query printed bytes that are not UTF-8.
    NonUtf8Url,
    /// The stream URL query printed no URL.
    EmptyStreamUrl,
    /// A download exited unsuccessfully; its exit status, as text.
    DownloadFailed { status: String },
    /// A download finished, yet no file of it can be found.
    DownloadNotFound { video_id: String },
}

/// The message of an error, as the user reads it.
pub open spec fn error_message(e: YtDlpError) -> Seq<char> {
    match e {
        YtDlpError::Failed { stderr } => "yt-dlp failed: "@ + stderr@,
        YtDlpError::InvalidJson => "failed to parse yt-dlp JSON"@,
        YtDlpError::MissingId => "yt-dlp JSON missing required 'id' field"@,
        YtDlpError::GetUrlFailed { stderr } => "yt-dlp --get-url failed: "@ + stderr@,
        YtDlpError::NonUtf8Url => "yt-dlp returned non-UTF8 URL"@,
        YtDlpError::EmptyStreamUrl => "yt-dlp returned an empty stream URL"@,
        YtDlpError::DownloadFailed { status } => "yt-dlp download exited with status "@
            + status@,
        YtDlpError::DownloadNotFound { video_id } => "could not find downloaded file for "@
            + video_id@,
    }
}

impl YtDlpError {
    /// The message of this error.
    pub fn message(&self) -> (m: String)
        ensures
            m@ == error_message(*self),
    {
        match self {
            YtDlpError::Failed { stderr } => {
                let mut m = string_from("yt-dlp failed: ");
                push_str(&mut m, stderr.as_str());
                m
            },
            YtDlpError::InvalidJson => string_from("failed to parse yt-dlp JSON"),
            YtDlpError::MissingId => string_from("yt-dlp JSON missing required 'id' field"),
            YtDlpError::GetUrlFailed { stderr } => {
                let mut m = string_from("yt-dlp --get-url failed: ");
                push_str(&mut m, stderr.as_str());
                m
            },
            YtDlpError::NonUtf8Url => string_from("yt-dlp returned non-UTF8 URL"),
            YtDlpError::EmptyStreamUrl => string_from("yt-dlp returned an empty stream URL"),
            YtDlpError::DownloadFailed { status } => {
                let mut m = string_from("yt-dlp download exited with status ");
                push_str(&mut m, status.as_str());
                m
            },
            YtDlpError::DownloadNotFound { video_id } => {
                let mut m = string_from("could not find downloaded file for ");
                push_str(&mut m, video_id.as_str());
                m
            },
        }
    }
}

/// A track's metadata, as `yt-dlp -j` describes it.
#[derive(Debug)]
pub struct TrackMeta {
    pub title: String,
    pub artist: String,
    pub channel: String,
    pub duration: u64,
    pub video_id: String,
    pub source: String,
}

/// The fields of `yt-dlp -j` output that the metadata is made from. A text
/// field is `Some` exactly when the JSON holds a string there; `duration` is the
/// JSON number truncated to whole seconds, 0 when there is none.
#[derive(Debug)]
pub struct YtDlpJson {
    pub id: Option<String>,
    pub webpage_url: Option<String>,
    pub title: Option<String>,
    pub artist: Option<String>,
    pub uploader: Option<String>,
    pub channel: Option<String>,
    pub duration: u64,
}

/// The text of `o`, or `d` when there is none.
pub open spec fn text_or(o: Option<String>, d: Seq<char>) -> Seq<char> {
    match o {
        Some(t) => t@,
        None => d,
    }
}

/// The artist: `artist`, else `uploader`, else "Unknown artist".
pub open spec fn meta_artist(j: YtDlpJson) -> Seq<char> {
    text_or(j.artist, text_or(j.uploader, "Unknown artist"@))
}

/// `m` is the metadata that `j` describes for a track fetched from `url`.
pub open spec fn meta_of(url: Seq<char>, j: YtDlpJson, m: TrackMeta) -> bool {
    &&& j.id matches Some(id) && m.video_id@ == id@
    &&& m.source@ == domain_of(text_or(j.webpage_url, url))
    &&& m.title@ == text_or(j.title, "Unknown title"@)
    &&& m.artist@ == meta_artist(j)
    &&& m.channel@ == text_or(j.channel, text_or(j.uploader, meta_artist(j)))
    &&& m.duration == j.duration
}

/// The text of `o`, or a copy of `d` when there is none.
fn text_or_exec(o: &Option<String>, d: &str) -> (t: String)
    ensures
        t@ == text_or(*o, d@),
{
    match o {
        Some(t) => t.clone(),
        None => string_from(d),
    }
}

/// Builds a track's metadata from the fields of `yt-dlp -j --no-playlist <url>`.
/// All fields but the id are optional: the title falls back to
/// "Unknown title", the artist to the uploader and then "Unknown artist", the
/// channel to the uploader and then the artist, and the source is the domain of
/// the page URL, or of `url` when there is none.
pub fn track_meta_from_json(url: &str, json: YtDlpJson) -> (r: Result<TrackMeta, YtDlpError>)
    ensures
        r matches Ok(m) ==> meta_of(url@, json, m),
        r matches Err(e) ==> e is MissingId,
        r is Err <==> json.id is None,
{
    let video_id = match &json.id {
        Some(id) => id.clone(),
        None => {
            return Err(YtDlpError::MissingId);
        },
    };
    let source = match &json.webpage_url {
        Some(w) => extract_domain(w.as_str()),
        None => extract_domain(url),
    };
    let title = text_or_exec(&json.title, "Unknown title");
    let artist = match &json.artist {
        Some(a) => a.clone(),
        None => text_or_exec(&json.uploader, "Unknown artist"),
    };
    let channel = match &json.channel {
        Some(c) => c.clone(),
        None => text_or_exec(&json.uploader, artist.as_str()),
    };
    Ok(TrackMeta { title, artist, channel, duration: json.duration, video_id, source })
}

/// Decodes bytes as UTF-8.
///
/// Calls `String::from_utf8`, which std documents as succeeding exactly when the
/// bytes are valid UTF-8; the contract says that, and that the text is their
/// decoding.
#[verifier::external_body]
fn utf8_text(bytes: Vec<u8>) -> (t: Option<String>)
    ensures
        t is Some <==> valid_utf8(bytes@),
        t matches Some(s) ==> s@ == decode_utf8(bytes@),
{
    String::from_utf8(bytes).ok()
}

/// The text `String::from_utf8_lossy` makes of `bytes`: their UTF-8 decoding,
/// each invalid sequence replaced by U+FFFD. It depends on the bytes alone.
pub uninterp spec fn lossy_utf8(bytes: Seq<u8>) -> Seq<char>;

/// Decodes bytes as UTF-8, replacing what is not.
///
/// Calls `String::from_utf8_lossy`. The contract names its result
/// `lossy_utf8` of the bytes, and states what std documents for valid input:
/// that the text is their decoding. How invalid sequences are replaced is
/// carried by the name, not spelled out.
#[verifier::external_body]
fn lossy_text(bytes: &[u8]) -> (t: String)
    ensures
        t@ == lossy_utf8(bytes@),
        valid_utf8(bytes@) ==> t@ == decode_utf8(bytes@),
{
    String::from_utf8_lossy(bytes).into_owned()
}

/// The direct stream URL from the outcome of
/// `yt-dlp -f <format> --get-url --no-playlist <url>`: an error when it failed
/// (carrying its stderr), when its output is not UTF-8 or when it printed no
/// URL; else the first non-blank line of its output.
pub fn stream_url_from_output(success: bool, stdout: Vec<u8>, stderr: &[u8]) -> (r: Result<
    String,
    YtDlpError,
>)
    ensures
        !success ==> (r matches Err(YtDlpError::GetUrlFailed { stderr: e }) && e@ == lossy_utf8(
            stderr@,
        ) && (valid_utf8(stderr@) ==> e@ == decode_utf8(stderr@))),
        success && !valid_utf8(stdout@) ==> (r matches Err(e) && e is NonUtf8Url),
        success && valid_utf8(stdout@) ==> match first_nonblank(lines(decode_utf8(stdout@))) {
            Some(u) => (r matches Ok(s) && s@ == u),
            None => (r matches Err(e) && e is EmptyStreamUrl),
        },
{
    if !success {
        return Err(YtDlpError::GetUrlFailed { stderr: lossy_text(stderr) });
    }
    match utf8_text(stdout) {
        None => Err(YtDlpError::NonUtf8Url),
        Some(text) => match first_url_line(text.as_str()) {
            Some(u) => Ok(u),
            None => Err(YtDlpError::EmptyStreamUrl),
        },
    }
}

/// The metadata from the outcome of `yt-dlp -j --no-playlist <url>`: an error
/// (carrying its stderr) when it failed, an error when its output was not JSON
/// (`json` is `None`), else what `track_meta_from_json` makes of the fields.
pub fn track_meta_from_output(
    url: &str,
    success: bool,
    stderr: &[u8],
    json: Option<YtDlpJson>,
) -> (r: Result<TrackMeta, YtDlpError>)
    ensures
        !success ==> (r matches Err(YtDlpError::Failed { stderr: e }) && e@ == lossy_utf8(stderr@)
            && (valid_utf8(stderr@) ==> e@ == decode_utf8(stderr@))),
        success && json is None ==> (r matches Err(e) && e is InvalidJson),
        success && json is Some ==> match json {
            Some(j) => match r {
                Ok(m) => meta_of(url@, j, m),
                Err(e) => e is MissingId && j.id is None,
            },
            None => true,
        },
{
    if !success {
        return Err(YtDlpError::Failed { stderr: lossy_text(stderr) });
    }
    match json {
        None => Err(YtDlpError::InvalidJson),
        Some(j) => track_meta_from_json(url, j),
    }
}

/// The arguments of the metadata query: `-j --no-playlist <url>`.
pub fn metadata_args(url: &str) -> (args: Vec<String>)
    ensures
        args@.map_values(|a: String| a@) == seq!["-j"@, "--no-playlist"@, url@],
{
    let args = vec![string_from("-j"), string_from("--no-playlist"), string_from(url)];
    assert(args@.map_values(|a: String| a@) =~= seq!["-j"@, "--no-playlist"@, url@]);
    args
}

/// The arguments of the stream URL query:
/// `-f <format> --get-url --no-playlist <url>`.
pub fn stream_url_args(format: &str, url: &str) -> (args: Vec<String>)
    ensures
        args@.map_values(|a: String| a@) == seq![
            "-f"@,
            format@,
            "--get-url"@,
            "--no-playlist"@,
            url@,
        ],
{
    let args = vec![
        string_from("-f"),
        string_from(format),
        string_from("--get-url"),
        string_from("--no-playlist"),
        string_from(url),
    ];
    assert(args@.map_values(|a: String| a@) =~= seq![
        "-f"@,
        format@,
        "--get-url"@,
        "--no-playlist"@,
        url@,
    ]);
    args
}

/// The output template of a download, relative to the audio directory:
/// `<video_id>.%(ext)s`, so that `yt-dlp` picks the extension.
pub fn output_template(video_id: &str) -> (t: String)
    ensures
        t@ == video_id@ + ".%(ext)s"@,
{
    let mut t = string_from(video_id);
    push_str(&mut t, ".%(ext)s");
    t
}

/// The arguments of a download: extract the audio of `<url>` as Opus, in the
/// given format, to the given output template.
pub fn download_args(format: &str, template: &str, url: &str) -> (args: Vec<String>)
    ensures
        args@.map_values(|a: String| a@) == seq![
            "-f"@,
            format@,
            "-x"@,
            "--audio-format"@,
            "opus"@,
            "--no-playlist"@,
            "-o"@,
            template@,
            url@,
        ],
{
    let args = vec![
        string_from("-f"),
        string_from(format),
        string_from("-x"),
        string_from("--audio-format"),
        string_from("opus"),
        string_from("--no-playlist"),
        string_from("-o"),
        string_from(template),
        string_from(url),
    ];
    assert(args@.map_values(|a: String| a@) =~= seq![
        "-f"@,
        format@,
        "-x"@,
        "--audio-format"@,
        "opus"@,
        "--no-playlist"@,
        "-o"@,
        template@,
        url@,
    ]);
    args
}

/// What a running download has said so far about where it writes.
pub struct DownloadWatch {
    /// The path of the last `Destination:` line seen.
    pub dest: Option<String>,
}

/// The destination after reading `line`: the one it names, else the one before.
pub open spec fn next_dest(dest: Option<Seq<char>>, line: Seq<char>) -> Option<Seq<char>> {
    match destination_from(line, 0) {
        Some(d) => Some(d),
        None => dest,
    }
}

/// The text of an optional string.
pub open spec fn opt_view(o: Option<String>) -> Option<Seq<char>> {
    match o {
        Some(s) => Some(s@),
        None => None,
    }
}

impl DownloadWatch {
    /// A download that has printed nothing yet.
    pub fn new() -> (w: Self)
        ensures
            w.dest is None,
    {
        DownloadWatch { dest: None }
    }

    /// Reads one line of a download's stderr: remembers the destination it
    /// names, and returns the percentage it reports, if any, for the caller to
    /// pass on.
    pub fn observe(&mut self, line: &str) -> (pct: Option<String>)
        ensures
            opt_view(final(self).dest) == next_dest(opt_view(old(self).dest), line@),
            opt_view(pct) == progress_from(line@, 0),
    {
        if let Some(d) = parse_destination_line(line) {
            self.dest = Some(d);
        }
        parse_progress_line(line)
    }
}

/// What to do once a download process has exited.
pub enum DownloadStep {
    /// It failed: report this error.
    Fail(YtDlpError),
    /// It delivered the file at this path.
    Done(String),
    /// Look for its file in the audio directory.
    Search,
}

/// The decision after a download exits: an error when it exited unsuccessfully,
/// else the logged destination if that file exists, else a search of the
/// directory.
pub fn download_exit_step(
    success: bool,
    status: String,
    dest: Option<String>,
    dest_exists: bool,
) -> (step: DownloadStep)
    ensures
        !success ==> (step matches DownloadStep::Fail(YtDlpError::DownloadFailed { status: s })
            && s@ == status@),
        success && dest is Some && dest_exists ==> (step matches DownloadStep::Done(p) && Some(
            p@,
        ) == opt_view(dest)),
        success && !(dest is Some && dest_exists) ==> step is Search,
{
    if !success {
        return DownloadStep::Fail(YtDlpError::DownloadFailed { status });
    }
    match dest {
        Some(d) => if dest_exists {
            DownloadStep::Done(d)
        } else {
            DownloadStep::Search
        },
        None => DownloadStep::Search,
    }
}

/// The file name in the audio directory that a finished download of
/// `video_id` left, or the error that none did.
pub fn downloaded_file_in(names: &Vec<String>, video_id: &str) -> (r: Result<String, YtDlpError>)
    ensures
        match downloaded_choice(names@.map_values(|n: String| n@), video_id@) {
            Some(i) => (r matches Ok(n) && n@ == names@[i]@),
            None => (r matches Err(YtDlpError::DownloadNotFound { video_id: v }) && v@
                == video_id@),
        },
{
    match choose_downloaded_file(names, video_id) {
        Some(i) => {
            proof {
                lemma_first_match_from(names@.map_values(|n: String| n@), video_id@, false, 0);
                lemma_first_match_from(names@.map_values(|n: String| n@), video_id@, true, 0);
            }
            Ok(names[i].clone())
        },
        None => Err(YtDlpError::DownloadNotFound { video_id: string_from(video_id) }),
    }
}

/// What a retry loop does after an attempt.
pub enum RetryStep {
    /// The attempt succeeded: stop with its result.
    Finish,
    /// It failed: wait the delay at this index, then try again.
    Wait(usize),
    /// It failed and no delay is left: stop with its error.
    GiveUp,
}

/// The decision after attempt number `attempt` (counting from 0) of an
/// operation retried after each of `n_delays` delays in turn.
pub open spec fn retry_decision(attempt: nat, n_delays: nat, succeeded: bool) -> RetryStep {
    if succeeded {
        RetryStep::Finish
    } else if attempt < n_delays {
        RetryStep::Wait(attempt as usize)
    } else {
        RetryStep::GiveUp
    }
}

/// The decision after attempt number `attempt` of an operation retried with
/// backoff: stop on success; after a failure, wait the next delay and retry,
/// or give up when every delay has been used.
pub fn retry_step(attempt: usize, n_delays: usize, succeeded: bool) -> (step: RetryStep)
    ensures
        step == retry_decision(attempt as nat, n_delays as nat, succeeded),
{
    if succeeded {
        RetryStep::Finish
    } else if attempt < n_delays {
        RetryStep::Wait(attempt)
    } else {
        RetryStep::GiveUp
    }
}

/// The number of attempts a retry loop makes from attempt `a` on, when the
/// attempts succeed as `outcomes` says.
pub open spec fn attempts_from(n_delays: nat, outcomes: Seq<bool>, a: nat) -> nat
    decreases n_delays + 1 - a,
{
    if a >= outcomes.len() || a > n_delays {
        0
    } else {
        match retry_decision(a, n_delays, outcomes[a as int]) {
            RetryStep::Wait(_) => 1 + attempts_from(n_delays, outcomes, a + 1),
            _ => 1,
        }
    }
}

/// A retry loop makes one attempt more than it has delays when every attempt
/// fails, and stops right after the first success otherwise.
pub proof fn law_retry_attempts(n_delays: nat, outcomes: Seq<bool>)
    requires
        outcomes.len() > n_delays,
    ensures
        (forall|k: int| 0 <= k <= n_delays ==> !outcomes[k]) ==> attempts_from(
            n_delays,
            outcomes,
            0,
        ) == n_delays + 1,
        forall|k: int|
            0 <= k <= n_delays && outcomes[k] && (forall|j: int| 0 <= j < k ==> !outcomes[j])
                ==> attempts_from(n_delays, outcomes, 0) == k + 1,
{
    lemma_attempts_from(n_delays, outcomes, 0);
}

/// `attempts_from` counts up to the first success, or to the last delay.
proof fn lemma_attempts_from(n_delays: nat, outcomes: Seq<bool>, a: nat)
    requires
        outcomes.len() > n_delays,
        a <= n_delays,
    ensures
        (forall|k: int| a <= k <= n_delays ==> !outcomes[k]) ==> attempts_from(
            n_delays,
            outcomes,
            a,
        ) == n_delays + 1 - a,
        forall|k: int|
            a <= k <= n_delays && outcomes[k] && (forall|j: int| a <= j < k ==> !outcomes[j])
                ==> attempts_from(n_delays, outcomes, a) == k + 1 - a,
    decreases n_delays - a,
{
    if a < n_delays {
        lemma_attempts_from(n_delays, outcomes, a + 1);
        assert forall|k: int|
            a <= k <= n_delays && outcomes[k] && (forall|j: int| a <= j < k ==> !outcomes[j])
            implies attempts_from(n_delays, outcomes, a) == k + 1 - a by {
            if k > a {
                assert(!outcomes[a as int]);
                assert forall|j: int| a + 1 <= j < k implies !outcomes[j] by {}
            }
        }
    }
}

/// A match found from `i` lies in range and satisfies its test.
proof fn lemma_first_match_from(names: Seq<Seq<char>>, id: Seq<char>, by_stem: bool, i: int)
    ensures
        first_match_from(names, id, by_stem, i) matches Some(k) ==> {
            &&& 0 <= k < names.len()
            &&& if by_stem {
                file_stem(names[k]) == id
            } else {
                is_opus_of(names[k], id)
            }
        },
    decreases names.len() - i,
{
    if 0 <= i < names.len() {
        lemma_first_match_from(names, id, by_stem, i + 1);
    }
}

/// The last `.` lies at or after any `.`.
proof fn lemma_last_dot_at_least(f: Seq<char>, m: int)
    requires
        0 <= m < f.len(),
        f[m] == '.',
    ensures
        m <= last_dot(f) < f.len(),
    decreases f.len(),
{
    if f.last() != '.' {
        assert(m < f.len() - 1);
        assert(f.drop_last()[m] == f[m]);
        lemma_last_dot_at_least(f.drop_last(), m);
    }
}

/// A scratch name holds a `.` after the one that ends its id.
proof fn lemma_partial_has_inner_dot(name: Seq<char>, id: Seq<char>)
    requires
        partial_artifact(name, id),
    ensures
        exists|m: int| id.len() + 1 <= m < name.len() && name[m] == '.',
{
    reveal_strlit(".part");
    reveal_strlit(".ytdl");
    reveal_strlit(".temp");
    reveal_strlit(".part-Frag");
    let h = id.len() + 1int;
    let rest = name.skip(h);
    let m = if ends_with(rest, ".part"@) {
        assert(rest.subrange(rest.len() - 5, rest.len() as int)[0] == rest[rest.len() - 5]);
        rest.len() - 5
    } else if ends_with(rest, ".ytdl"@) {
        assert(rest.subrange(rest.len() - 5, rest.len() as int)[0] == rest[rest.len() - 5]);
        rest.len() - 5
    } else if ends_with(rest, ".temp"@) {
        assert(rest.subrange(rest.len() - 5, rest.len() as int)[0] == rest[rest.len() - 5]);
        rest.len() - 5
    } else {
        let i = choose|i: int| occurs_at(rest, ".part-Frag"@, i);
        assert(rest.subrange(i, i + 10)[0] == rest[i]);
        i
    };
    assert(rest[m] == '.');
    assert(name[h + m] == rest[m]);
}

/// The file chosen as a finished download is never a scratch file, so the
/// clean-up of scratch files never removes what a download delivered.
pub proof fn law_chosen_download_is_not_partial(names: Seq<Seq<char>>, id: Seq<char>)
    ensures
        downloaded_choice(names, id) matches Some(i) ==> {
            &&& 0 <= i < names.len()
            &&& !partial_artifact(names[i], id)
        },
{
    reveal_strlit(".opus");
    reveal_strlit("..");
    lemma_first_match_from(names, id, false, 0);
    lemma_first_match_from(names, id, true, 0);
    if let Some(i) = downloaded_choice(names, id) {
        let name = names[i];
        if partial_artifact(name, id) {
            lemma_partial_has_inner_dot(name, id);
            let m = choose|m: int| id.len() + 1 <= m < name.len() && name[m] == '.';
            if first_match_from(names, id, false, 0) is Some {
                assert(name == id + ".opus"@);
                assert(name.len() == id.len() + 5);
                let rest = name.skip(id.len() + 1int);
                assert(rest.len() == 4);
                assert(!ends_with(rest, ".part"@));
                assert(!ends_with(rest, ".ytdl"@));
                assert(!ends_with(rest, ".temp"@));
                assert(!contains_seq(rest, ".part-Frag"@));
            } else {
                lemma_last_dot_at_least(name, m);
                assert(file_stem(name) == id);
                if name == ".."@ {
                    assert(name.len() == 2);
                    assert(id.push('.').len() == 3);
                } else {
                    assert(file_stem(name).len() == last_dot(name));
                }
            }
        }
    }
}

/// The scratch files of a download of `id` among `names`, in their order.
pub open spec fn scratch_names(names: Seq<Seq<char>>, id: Seq<char>) -> Seq<Seq<char>>
    decreases names.len(),
{
    if names.len() == 0 {
        Seq::empty()
    } else {
        let rest = scratch_names(names.drop_last(), id);
        if partial_artifact(names.last(), id) {
            rest.push(names.last())
        } else {
            rest
        }
    }
}

/// The file names in the audio directory that a clean-up after a download of
/// `video_id` removes: its scratch files, in the order given.
pub fn partial_artifacts_in(names: &Vec<String>, video_id: &str) -> (scratch: Vec<String>)
    ensures
        scratch@.map_values(|n: String| n@) == scratch_names(
            names@.map_values(|n: String| n@),
            video_id@,
        ),
{
    let ghost ns = names@.map_values(|n: String| n@);
    let mut scratch: Vec<String> = Vec::new();
    let mut i: usize = 0;
    while i < names.len()
        invariant
            i <= names.len(),
            ns == names@.map_values(|n: String| n@),
            scratch@.map_values(|n: String| n@) == scratch_names(ns.take(i as int), video_id@),
        decreases names.len() - i,
    {
        let ghost before = scratch@.map_values(|n: String| n@);
        proof {
            assert(ns.take(i + 1).drop_last() =~= ns.take(i as int));
            assert(ns.take(i + 1).last() == names@[i as int]@);
        }
        if is_partial_artifact(names[i].as_str(), video_id) {
            scratch.push(names[i].clone());
            assert(scratch@.map_values(|n: String| n@) =~= before.push(names@[i as int]@));
        }
        i = i + 1;
    }
    assert(ns.take(names.len() as int) =~= ns);
    scratch
}

/// Every name the clean-up removes is a scratch file.
proof fn lemma_scratch_names_partial(names: Seq<Seq<char>>, id: Seq<char>)
    ensures
        forall|k: int|
            0 <= k < scratch_names(names, id).len() ==> partial_artifact(
                #[trigger] scratch_names(names, id)[k],
                id,
            ),
    decreases names.len(),
{
    if names.len() > 0 {
        let rest = scratch_names(names.drop_last(), id);
        lemma_scratch_names_partial(names.drop_last(), id);
        assert forall|k: int|
            0 <= k < scratch_names(names, id).len() implies partial_artifact(
            #[trigger] scratch_names(names, id)[k],
            id,
        ) by {
            if partial_artifact(names.last(), id) {
                assert(scratch_names(names, id) == rest.push(names.last()));
                if k < rest.len() {
                    assert(scratch_names(names, id)[k] == rest[k]);
                }
            } else {
                assert(scratch_names(names, id) == rest);
            }
        }
    }
}

/// The clean-up after a download never removes the file chosen as its
/// finished download.
pub proof fn law_cleanup_keeps_the_download(names: Seq<Seq<char>>, id: Seq<char>)
    ensures
        downloaded_choice(names, id) matches Some(i) ==> !scratch_names(names, id).contains(
            names[i],
        ),
{
    law_chosen_download_is_not_partial(names, id);
    lemma_scratch_names_partial(names, id);
}

/// Metadata keeps what the JSON says and falls back only where it is silent:
/// the artist is the JSON's artist when there is one, else the uploader, else
/// "Unknown artist"; the channel is the JSON's channel, else the uploader, else
/// that artist; the title is the JSON's title, else "Unknown title"; the id and
/// duration are the JSON's; the source is the domain of the page URL, else of
/// the URL asked for.
pub proof fn law_track_meta_keeps_the_json(url: Seq<char>, j: YtDlpJson, m: TrackMeta)
    requires
        meta_of(url, j, m),
    ensures
        j.id matches Some(id) && m.video_id@ == id@,
        m.duration == j.duration,
        j.artist matches Some(a) ==> m.artist@ == a@,
        j.artist is None ==> (j.uploader matches Some(u) ==> m.artist@ == u@),
        j.artist is None && j.uploader is None ==> m.artist@ == "Unknown artist"@,
        j.channel matches Some(c) ==> m.channel@ == c@,
        j.channel is None ==> (j.uploader matches Some(u) ==> m.channel@ == u@),
        j.channel is None && j.uploader is None ==> m.channel@ == m.artist@,
        j.title matches Some(t) ==> m.title@ == t@,
        j.title is None ==> m.title@ == "Unknown title"@,
        j.webpage_url matches Some(w) ==> m.source@ == domain_of(w@),
        j.webpage_url is None ==> m.source@ == domain_of(url),
{
}

/// A `Destination:` line names the whole rest of the line, trimmed: for a path
/// `p` without a newline and not blank, both `[download] Destination: p` and
/// `[ExtractAudio] Destination: p` name `trim(p)`, inner spaces included.
pub proof fn law_destination_is_the_rest_of_the_line(p: Seq<char>)
    requires
        forall|i: int| 0 <= i < p.len() ==> p[i] != '\n',
        trim(p).len() > 0,
    ensures
        destination_from("[download] Destination: "@ + p, 0) == Some(trim(p)),
        destination_from("[ExtractAudio] Destination: "@ + p, 0) == Some(trim(p)),
{
    reveal_strlit("[download] Destination: ");
    reveal_strlit("[ExtractAudio] Destination: ");
    let dl = "[download] Destination: "@;
    let xa = "[ExtractAudio] Destination: "@;
    assert(p.len() > 0);
    let s1 = dl + p;
    assert(s1.subrange(0, dl.len() as int) =~= dl);
    assert forall|k: int| dl.len() <= k < s1.len() implies in_class(
        #[trigger] s1[k],
        CharClass::Not('\n'),
    ) by {
        assert(s1[k] == p[k - dl.len()]);
    }
    lemma_run_len(s1, dl.len() as int, s1.len() as int, CharClass::Not('\n'));
    assert(s1.subrange(dl.len() as int, s1.len() as int) =~= p);
    assert(destination_capture_at(s1, 0) == Some(trim(p)));
    let s2 = xa + p;
    assert(s2.subrange(0, xa.len() as int) =~= xa);
    assert(s2.subrange(0, dl.len() as int)[1] == 'E');
    assert(!occurs_at(s2, dl, 0));
    assert forall|k: int| xa.len() <= k < s2.len() implies in_class(
        #[trigger] s2[k],
        CharClass::Not('\n'),
    ) by {
        assert(s2[k] == p[k - xa.len()]);
    }
    lemma_run_len(s2, xa.len() as int, s2.len() as int, CharClass::Not('\n'));
    assert(s2.subrange(xa.len() as int, s2.len() as int) =~= p);
    assert(destination_capture_at(s2, 0) == Some(trim(p)));
}

/// The clean-up removes exactly the scratch files of the listing: a name is
/// removed if and only if it is in the listing and is a scratch file of `id`.
pub proof fn law_cleanup_removes_every_scratch_file(names: Seq<Seq<char>>, id: Seq<char>)
    ensures
        forall|k: int|
            0 <= k < names.len() && partial_artifact(#[trigger] names[k], id) ==> scratch_names(
                names,
                id,
            ).contains(names[k]),
        forall|x: Seq<char>|
            #[trigger] scratch_names(names, id).contains(x) ==> names.contains(x)
                && partial_artifact(x, id),
    decreases names.len(),
{
    if names.len() > 0 {
        let d = names.drop_last();
        let rest = scratch_names(d, id);
        law_cleanup_removes_every_scratch_file(d, id);
        let all = scratch_names(names, id);
        assert forall|k: int|
            0 <= k < names.len() && partial_artifact(#[trigger] names[k], id) implies all.contains(
            names[k],
        ) by {
            if k == names.len() - 1 {
                assert(all == rest.push(names.last()));
                assert(all[rest.len() as int] == names[k]);
            } else {
                assert(d[k] == names[k]);
                assert(rest.contains(d[k]));
                let m = choose|m: int| 0 <= m < rest.len() && rest[m] == d[k];
                if partial_artifact(names.last(), id) {
                    assert(all == rest.push(names.last()));
                    assert(all[m] == rest[m]);
                } else {
                    assert(all == rest);
                }
            }
        }
        assert forall|x: Seq<char>| #[trigger] all.contains(x) implies names.contains(x)
            && partial_artifact(x, id) by {
            let m = choose|m: int| 0 <= m < all.len() && all[m] == x;
            if partial_artifact(names.last(), id) {
                assert(all == rest.push(names.last()));
                if m < rest.len() {
                    assert(all[m] == rest[m]);
                    assert(rest.contains(x));
                    let k = choose|k: int| 0 <= k < d.len() && d[k] == x;
                    assert(names[k] == d[k]);
                } else {
                    assert(names[names.len() - 1] == x);
                }
            } else {
                assert(all == rest);
                assert(rest.contains(x));
                let k = choose|k: int| 0 <= k < d.len() && d[k] == x;
                assert(names[k] == d[k]);
            }
        }
    }
}

/// Stripping stops only where `p` no longer begins the text.
pub proof fn lemma_strip_all_unprefixed(s: Seq<char>, p: Seq<char>)
    requires
        p.len() > 0,
    ensures
        !starts_with(strip_all(s, p), p),
    decreases s.len(),
{
    if starts_with(s, p) {
        lemma_strip_all_unprefixed(s.skip(p.len() as int), p);
    }
}

/// Text that holds no `/` and does not begin with `www.` is its own domain.
proof fn lemma_domain_fixed(r: Seq<char>)
    requires
        forall|k: int| 0 <= k < r.len() ==> r[k] != '/',
        !starts_with(r, "www."@),
    ensures
        domain_of(r) == r,
{
    reveal_strlit("https://");
    reveal_strlit("http://");
    if starts_with(r, "https://"@) {
        assert(r.subrange(0, 8)[6] == r[6]);
    }
    if starts_with(r, "http://"@) {
        assert(r.subrange(0, 7)[5] == r[5]);
    }
    assert(strip_all(r, "https://"@) == r);
    assert(strip_all(r, "http://"@) == r);
    assert(strip_all(r, "www."@) == r);
    lemma_run_len(r, 0, r.len() as int, CharClass::Not('/'));
    assert(r.take(r.len() as int) =~= r);
}

/// Taking the domain of a domain changes nothing: the domain holds no `/` and
/// does not begin with a scheme or `www.`.
pub proof fn law_extract_domain_idempotent(url: Seq<char>)
    ensures
        domain_of(domain_of(url)) == domain_of(url),
{
    reveal_strlit("www.");
    let rest = strip_all(strip_all(strip_all(url, "https://"@), "http://"@), "www."@);
    let k = index_of_char(rest, '/') as int;
    let r = domain_of(url);
    lemma_run_len_members(rest, 0, CharClass::Not('/'));
    lemma_strip_all_unprefixed(strip_all(strip_all(url, "https://"@), "http://"@), "www."@);
    assert forall|i: int| 0 <= i < r.len() implies r[i] != '/' by {
        assert(r[i] == rest[i]);
    }
    if starts_with(r, "www."@) {
        assert(rest.subrange(0, 4) =~= r.subrange(0, 4));
    }
    lemma_domain_fixed(r);
}

/// Trimming keeps a text free of newlines.
proof fn lemma_trim_no_newline(s: Seq<char>)
    requires
        forall|i: int| 0 <= i < s.len() ==> s[i] != '\n',
    ensures
        forall|i: int| 0 <= i < trim(s).len() ==> trim(s)[i] != '\n',
{
    lemma_trim_start_no_newline(s);
    lemma_trim_end_no_newline(trim_start(s));
}

/// Trimming the start keeps a text free of newlines.
proof fn lemma_trim_start_no_newline(s: Seq<char>)
    requires
        forall|i: int| 0 <= i < s.len() ==> s[i] != '\n',
    ensures
        forall|i: int| 0 <= i < trim_start(s).len() ==> trim_start(s)[i] != '\n',
    decreases s.len(),
{
    if s.len() > 0 && is_ws(s[0]) {
        let t = s.drop_first();
        assert forall|i: int| 0 <= i < t.len() implies t[i] != '\n' by {
            assert(t[i] == s[i + 1]);
        }
        lemma_trim_start_no_newline(t);
        assert(trim_start(s) == trim_start(t));
    } else {
        assert(trim_start(s) == s);
    }
}

/// Trimming the end keeps a text free of newlines.
proof fn lemma_trim_end_no_newline(s: Seq<char>)
    requires
        forall|i: int| 0 <= i < s.len() ==> s[i] != '\n',
    ensures
        forall|i: int| 0 <= i < trim_end(s).len() ==> trim_end(s)[i] != '\n',
    decreases s.len(),
{
    if s.len() > 0 && is_ws(s.last()) {
        let t = s.drop_last();
        assert forall|i: int| 0 <= i < t.len() implies t[i] != '\n' by {
            assert(t[i] == s[i]);
        }
        lemma_trim_end_no_newline(t);
        assert(trim_end(s) == trim_end(t));
    } else {
        assert(trim_end(s) == s);
    }
}

/// No line holds a newline.
proof fn lemma_lines_no_newline(s: Seq<char>)
    ensures
        forall|k: int, i: int|
            0 <= k < lines(s).len() && 0 <= i < lines(s)[k].len() ==> #[trigger] lines(s)[k][i]
                != '\n',
    decreases s.len(),
{
    let k = index_of_char(s, '\n');
    lemma_run_len_members(s, 0, CharClass::Not('\n'));
    if k < s.len() {
        lemma_lines_no_newline(s.skip((k + 1) as int));
        let head = s.take(k as int);
        let rest = lines(s.skip((k + 1) as int));
        assert forall|m: int, i: int|
            0 <= m < lines(s).len() && 0 <= i < lines(s)[m].len() implies #[trigger] lines(s)[m][i]
            != '\n' by {
            if m == 0 {
                assert(lines(s)[0] == head);
                assert(head[i] == s[i]);
            } else {
                assert(lines(s)[m] == rest[m - 1]);
            }
        }
    }
}

/// A non-blank line found is the trim of one of the lines, and not empty.
proof fn lemma_first_nonblank_is_a_line(ls: Seq<Seq<char>>)
    ensures
        first_nonblank(ls) matches Some(u) ==> u.len() > 0 && exists|k: int|
            0 <= k < ls.len() && u == trim(#[trigger] ls[k]),
    decreases ls.len(),
{
    if ls.len() > 0 && trim(ls[0]).len() == 0 {
        lemma_first_nonblank_is_a_line(ls.drop_first());
        if let Some(u) = first_nonblank(ls) {
            let k = choose|k: int| 0 <= k < ls.drop_first().len() && u == trim(
                #[trigger] ls.drop_first()[k],
            );
            assert(ls[k + 1] == ls.drop_first()[k]);
        }
    } else if ls.len() > 0 {
        assert(trim(ls[0]) == trim(ls[0]));
    }
}

/// The stream URL taken from `yt-dlp`'s output is never empty and never holds
/// a newline, which the player could not open.
pub proof fn law_stream_url_is_one_line(output: Seq<char>)
    ensures
        first_nonblank(lines(output)) matches Some(u) ==> u.len() > 0 && forall|i: int|
            0 <= i < u.len() ==> u[i] != '\n',
{
    lemma_first_nonblank_is_a_line(lines(output));
    lemma_lines_no_newline(output);
    if let Some(u) = first_nonblank(lines(output)) {
        let ls = lines(output);
        let k = choose|k: int| 0 <= k < ls.len() && u == trim(#[trigger] ls[k]);
        assert forall|i: int| 0 <= i < ls[k].len() implies ls[k][i] != '\n' by {
            assert(lines(output)[k][i] != '\n');
        }
        lemma_trim_no_newline(ls[k]);
    }
}

/// Where a download writes after it printed `lines`, starting from `start`.
pub open spec fn dest_after(start: Option<Seq<char>>, lines: Seq<Seq<char>>) -> Option<Seq<char>>
    decreases lines.len(),
{
    if lines.len() == 0 {
        start
    } else {
        next_dest(dest_after(start, lines.drop_last()), lines.last())
    }
}

/// A download's destination is the one its last `Destination:` line named;
/// it has none while no line named one.
pub proof fn law_download_dest_is_the_last_logged(lines: Seq<Seq<char>>)
    ensures
        (forall|i: int| 0 <= i < lines.len() ==> #[trigger] destination_from(lines[i], 0) is None)
            ==> dest_after(None, lines) is None,
        dest_after(None, lines) matches Some(d) ==> exists|i: int|
            0 <= i < lines.len() && #[trigger] destination_from(lines[i], 0) == Some(d) && forall|
                j: int,
            |
                i < j < lines.len() ==> #[trigger] destination_from(lines[j], 0) is None,
    decreases lines.len(),
{
    if lines.len() > 0 {
        let prev = lines.drop_last();
        law_download_dest_is_the_last_logged(prev);
        let last = lines.len() - 1;
        assert forall|i: int| 0 <= i < prev.len() implies #[trigger] prev[i] == lines[i] by {}
        if destination_from(lines[last], 0) is None {
            if let Some(d) = dest_after(None, lines) {
                let i = choose|i: int|
                    0 <= i < prev.len() && #[trigger] destination_from(prev[i], 0) == Some(d)
                        && forall|j: int|
                        i < j < prev.len() ==> #[trigger] destination_from(prev[j], 0) is None;
                assert(destination_from(lines[i], 0) == Some(d));
                assert forall|j: int| i < j < lines.len() implies #[trigger] destination_from(
                    lines[j],
                    0,
                ) is None by {
                    if j < last {
                        assert(destination_from(prev[j], 0) is None);
                    }
                }
            }
            if forall|i: int| 0 <= i < lines.len() ==> #[trigger] destination_from(lines[i], 0) is None {
                assert forall|i: int| 0 <= i < prev.len() implies #[trigger] destination_from(
                    prev[i],
                    0,
                ) is None by {
                    assert(destination_from(lines[i], 0) is None);
                }
            }
        } else {
            assert(destination_from(lines[last], 0) == dest_after(None, lines));
        }
    }
}

} // verus!

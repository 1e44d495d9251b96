//! How `ffmpeg` is called, and what its outcome means.

use vstd::prelude::*;
use crate::text::{decimal, digit, push_decimal, texts};

verus! {

/// The protocols that `ffmpeg` may use to fetch a playlist and its segments.
pub open spec fn protocols() -> Seq<char> {
    "file,http,https,tcp,tls,crypto"@
}

/// The flags for fragmented output. `empty_moov` keeps the first group of pictures inside the first
/// fragment; `delay_moov` defers the `moov` until the audio configuration is known.
pub open spec fn fragment_flags() -> Seq<char> {
    "empty_moov+delay_moov+frag_keyframe+default_base_moof"@
}

/// The arguments to transmux TS bytes from standard input, with timestamps shifted by `offset` seconds.
pub open spec fn pipe_arguments(offset: Seq<char>) -> Seq<Seq<char>> {
    seq![
        "-loglevel"@, "error"@,
        "-i"@, "pipe:0"@,
        "-c"@, "copy"@,
        "-bsf:a"@, "aac_adtstoasc"@,
        "-output_ts_offset"@, offset,
        "-movflags"@, fragment_flags(),
        "-f"@, "mp4"@,
        "pipe:1"@,
    ]
}

/// The arguments to transmux the start of an HLS playlist: at most fifteen seconds of it.
pub open spec fn playlist_arguments(url: Seq<char>) -> Seq<Seq<char>> {
    seq![
        "-loglevel"@, "error"@,
        "-allowed_extensions"@, "ALL"@,
        "-protocol_whitelist"@, protocols(),
        "-i"@, url,
        "-t"@, "15"@,
        "-c"@, "copy"@,
        "-movflags"@, "frag_keyframe+default_base_moof"@,
        "-f"@, "mp4"@,
        "pipe:1"@,
    ]
}

/// The arguments to transmux a TS segment by its URL. The segment is no playlist, so there is no
/// `-allowed_extensions`, which only the HLS demuxer knows.
pub open spec fn segment_arguments(url: Seq<char>) -> Seq<Seq<char>> {
    seq![
        "-loglevel"@, "error"@,
        "-protocol_whitelist"@, protocols(),
        "-i"@, url,
        "-c"@, "copy"@,
        "-bsf:a"@, "aac_adtstoasc"@,
        "-movflags"@, fragment_flags(),
        "-f"@, "mp4"@,
        "pipe:1"@,
    ]
}

/// The arguments to transmux a playlist file, with timestamps shifted by `offset` seconds.
pub open spec fn file_arguments(path: Seq<char>, offset: Seq<char>) -> Seq<Seq<char>> {
    seq![
        "-loglevel"@, "error"@,
        "-allowed_extensions"@, "ALL"@,
        "-protocol_whitelist"@, protocols(),
        "-i"@, path,
        "-c"@, "copy"@,
        "-bsf:a"@, "aac_adtstoasc"@,
        "-output_ts_offset"@, offset,
        "-movflags"@, fragment_flags(),
        "-f"@, "mp4"@,
        "pipe:1"@,
    ]
}

/// The arguments to transmux a stretch of an HLS playlist.
pub open spec fn stretch_arguments(url: Seq<char>, seek: Seq<char>, duration: Seq<char>) -> Seq<Seq<char>> {
    seq![
        "-loglevel"@, "error"@,
        "-allowed_extensions"@, "ALL"@,
        "-protocol_whitelist"@, protocols(),
        "-ss"@, seek,
        "-i"@, url,
        "-t"@, duration,
        "-c"@, "copy"@,
        "-bsf:a"@, "aac_adtstoasc"@,
        "-movflags"@, fragment_flags(),
        "-f"@, "mp4"@,
        "pipe:1"@,
    ]
}

fn push_two(args: &mut Vec<String>, name: &str, value: &str)
    ensures
        texts(final(args)@) == texts(old(args)@).push(name@).push(value@),
{
    let ghost before = texts(args@);
    args.push(name.to_owned());
    args.push(value.to_owned());
    assert(texts(args@) =~= before.push(name@).push(value@));
}

fn push_hls_input(args: &mut Vec<String>)
    ensures
        texts(final(args)@) == texts(old(args)@).push("-allowed_extensions"@).push("ALL"@).push(
            "-protocol_whitelist"@,
        ).push(protocols()),
{
    push_two(args, "-allowed_extensions", "ALL");
    push_two(args, "-protocol_whitelist", "file,http,https,tcp,tls,crypto");
}

fn push_output(args: &mut Vec<String>, flags: &str)
    ensures
        texts(final(args)@) == texts(old(args)@).push("-movflags"@).push(flags@).push("-f"@).push("mp4"@).push(
            "pipe:1"@,
        ),
{
    push_two(args, "-movflags", flags);
    push_two(args, "-f", "mp4");
    let ghost before = texts(args@);
    args.push("pipe:1".to_owned());
    assert(texts(args@) =~= before.push("pipe:1"@));
}

fn first_args() -> (args: Vec<String>)
    ensures
        texts(args@) == seq!["-loglevel"@, "error"@],
{
    let mut args: Vec<String> = Vec::new();
    push_two(&mut args, "-loglevel", "error");
    assert(texts(args@) =~= seq!["-loglevel"@, "error"@]);
    args
}

/// The arguments to transmux TS bytes from standard input.
pub fn pipe_args(offset: &str) -> (args: Vec<String>)
    ensures
        texts(args@) == pipe_arguments(offset@),
{
    let mut args = first_args();
    push_two(&mut args, "-i", "pipe:0");
    push_two(&mut args, "-c", "copy");
    push_two(&mut args, "-bsf:a", "aac_adtstoasc");
    push_two(&mut args, "-output_ts_offset", offset);
    push_output(&mut args, "empty_moov+delay_moov+frag_keyframe+default_base_moof");
    assert(texts(args@) =~= pipe_arguments(offset@));
    args
}

/// The arguments to transmux the start of an HLS playlist.
pub fn playlist_args(url: &str) -> (args: Vec<String>)
    ensures
        texts(args@) == playlist_arguments(url@),
{
    let mut args = first_args();
    push_hls_input(&mut args);
    push_two(&mut args, "-i", url);
    push_two(&mut args, "-t", "15");
    push_two(&mut args, "-c", "copy");
    push_output(&mut args, "frag_keyframe+default_base_moof");
    assert(texts(args@) =~= playlist_arguments(url@));
    args
}

/// The arguments to transmux a TS segment by its URL.
pub fn segment_args(url: &str) -> (args: Vec<String>)
    ensures
        texts(args@) == segment_arguments(url@),
{
    let mut args = first_args();
    push_two(&mut args, "-protocol_whitelist", "file,http,https,tcp,tls,crypto");
    push_two(&mut args, "-i", url);
    push_two(&mut args, "-c", "copy");
    push_two(&mut args, "-bsf:a", "aac_adtstoasc");
    push_output(&mut args, "empty_moov+delay_moov+frag_keyframe+default_base_moof");
    assert(texts(args@) =~= segment_arguments(url@));
    args
}

/// The arguments to transmux a playlist file.
pub fn file_args(path: &str, offset: &str) -> (args: Vec<String>)
    ensures
        texts(args@) == file_arguments(path@, offset@),
{
    let mut args = first_args();
    push_hls_input(&mut args);
    push_two(&mut args, "-i", path);
    push_two(&mut args, "-c", "copy");
    push_two(&mut args, "-bsf:a", "aac_adtstoasc");
    push_two(&mut args, "-output_ts_offset", offset);
    push_output(&mut args, "empty_moov+delay_moov+frag_keyframe+default_base_moof");
    assert(texts(args@) =~= file_arguments(path@, offset@));
    args
}

/// A number of milliseconds in seconds, with three decimals.
pub open spec fn seconds(ms: nat) -> Seq<char> {
    decimal(ms / 1000) + seq!['.', digit(ms % 1000 / 100), digit(ms % 100 / 10), digit(ms % 10)]
}

fn seconds_text(ms: u128) -> (r: String)
    ensures
        r@ == seconds(ms as nat),
{
    let mut r = String::new();
    push_decimal(&mut r, ms / 1000);
    let a: u8 = (ms % 1000 / 100) as u8;
    let b: u8 = (ms % 100 / 10) as u8;
    let c: u8 = (ms % 10) as u8;
    r.push('.');
    r.push((48 + a) as char);
    r.push((48 + b) as char);
    r.push((48 + c) as char);
    assert(r@ =~= seconds(ms as nat));
    r
}

/// The arguments to transmux segment `idx` of an HLS playlist whose segments last `dur_ms`
/// milliseconds: the stretch of that duration, that many durations into the playlist.
pub fn playlist_segment_args(url: &str, idx: usize, dur_ms: u64) -> (args: Vec<String>)
    ensures
        texts(args@) == stretch_arguments(url@, seconds((idx * dur_ms) as nat), seconds(dur_ms as nat)),
{
    assert(idx * dur_ms <= u128::MAX) by (nonlinear_arith)
        requires
            0 <= idx <= u64::MAX,
            0 <= dur_ms <= u64::MAX,
    ;
    let seek = seconds_text(idx as u128 * dur_ms as u128);
    let duration = seconds_text(dur_ms as u128);
    let mut args = first_args();
    push_hls_input(&mut args);
    push_two(&mut args, "-ss", seek.as_str());
    push_two(&mut args, "-i", url);
    push_two(&mut args, "-t", duration.as_str());
    push_two(&mut args, "-c", "copy");
    push_two(&mut args, "-bsf:a", "aac_adtstoasc");
    push_output(&mut args, "empty_moov+delay_moov+frag_keyframe+default_base_moof");
    assert(texts(args@) =~= stretch_arguments(url@, seconds((idx * dur_ms) as nat), seconds(dur_ms as nat)));
    args
}

/// Where `ffmpeg` reads from.
#[derive(Debug, Clone, Copy)]
pub enum Source {
    /// Bytes through standard input.
    Pipe,
    /// An HLS playlist that it fetches.
    Playlist,
    /// A TS segment that it fetches.
    Segment,
    /// A playlist file.
    File,
}

/// What is said of an `ffmpeg` that could not be started.
pub open spec fn not_started(source: Source, reason: Seq<char>) -> Seq<char> {
    match source {
        Source::Pipe | Source::Playlist => "failed to spawn ffmpeg: "@ + reason
            + ". Is ffmpeg installed and in PATH?"@,
        Source::Segment | Source::File => "failed to spawn ffmpeg: "@ + reason,
    }
}

/// The text for an `ffmpeg` that could not be started.
pub fn spawn_error(source: Source, reason: &str) -> (r: String)
    ensures
        r@ == not_started(source, reason@),
{
    let mut r = "failed to spawn ffmpeg: ".to_owned();
    r.append(reason);
    match source {
        Source::Pipe | Source::Playlist => {
            r.append(". Is ffmpeg installed and in PATH?");
        },
        Source::Segment | Source::File => {},
    }
    r
}

/// What is said of an `ffmpeg` that failed, before what it had to say itself.
pub open spec fn failure(source: Source) -> Seq<char> {
    match source {
        Source::Pipe => "ffmpeg transmux failed: "@,
        Source::Playlist => "ffmpeg produced no output from URL: "@,
        Source::Segment => "ffmpeg produced no output for segment URL: "@,
        Source::File => "ffmpeg produced no output from mini-playlist: "@,
    }
}

/// An `ffmpeg` that was fed through standard input has to end with success. Of one that read its input
/// itself whatever it wrote is used, and only no output at all is a failure.
pub open spec fn is_usable(source: Source, success: bool, output: Seq<u8>) -> bool {
    match source {
        Source::Pipe => success,
        _ => output.len() > 0,
    }
}

/// What the end of an `ffmpeg` means: its output, or the text of its failure.
pub fn transmux_outcome(source: Source, success: bool, stdout: Vec<u8>, stderr: &str) -> (r: Result<Vec<u8>, String>)
    ensures
        match r {
            Ok(output) => is_usable(source, success, stdout@) && output@ == stdout@,
            Err(reason) => !is_usable(source, success, stdout@) && reason@ == failure(source) + stderr@,
        },
{
    let (usable, text) = match source {
        Source::Pipe => (success, "ffmpeg transmux failed: "),
        Source::Playlist => (stdout.len() > 0, "ffmpeg produced no output from URL: "),
        Source::Segment => (stdout.len() > 0, "ffmpeg produced no output for segment URL: "),
        Source::File => (stdout.len() > 0, "ffmpeg produced no output from mini-playlist: "),
    };
    if usable {
        Ok(stdout)
    } else {
        let mut reason = text.to_owned();
        reason.append(stderr);
        Err(reason)
    }
}

/// A time in seconds is shown with all its milliseconds, as three digits behind the point.
pub proof fn law_seconds(whole: nat, a: nat, b: nat, c: nat)
    requires
        a < 10,
        b < 10,
        c < 10,
    ensures
        seconds(1000 * whole + 100 * a + 10 * b + c) == decimal(whole) + seq!['.'] + decimal(a) + decimal(b) + decimal(c),
{
    let ms = 1000 * whole + 100 * a + 10 * b + c;
    assert(ms / 1000 == whole);
    assert(ms % 1000 == 100 * a + 10 * b + c);
    assert(ms % 100 == 10 * b + c);
    assert(ms % 10 == c);
    assert(seconds(ms) =~= decimal(whole) + seq!['.'] + decimal(a) + decimal(b) + decimal(c));
}

/// Whether the output of an `ffmpeg` is used: with standard input only its success counts, otherwise only
/// that there is output.
pub proof fn law_usable(source: Source, output: Seq<u8>)
    ensures
        source is Pipe ==> is_usable(source, true, output) && !is_usable(source, false, output),
        !(source is Pipe) && output.len() > 0 ==> is_usable(source, true, output) && is_usable(source, false, output),
        !(source is Pipe) && output.len() == 0 ==> !is_usable(source, true, output) && !is_usable(source, false, output),
{
}

/// The option has the value: somewhere among the arguments the value follows the name.
pub open spec fn has_option(args: Seq<Seq<char>>, name: Seq<char>, value: Seq<char>) -> bool {
    exists|i: int| 0 <= i < args.len() - 1 && #[trigger] args[i] == name && args[i + 1] == value
}

/// The streams are copied into MP4 on standard output.
pub open spec fn copies_to_mp4(args: Seq<Seq<char>>) -> bool {
    has_option(args, "-c"@, "copy"@) && has_option(args, "-f"@, "mp4"@) && args.last() == "pipe:1"@
}

/// Whatever `ffmpeg` reads, it is told where to read from, and copies what it reads into MP4 on standard output:
/// shifted by the offset given, or from the seek position on and for the duration given.
pub proof fn law_arguments(input: Seq<char>, offset: Seq<char>, seek: Seq<char>, duration: Seq<char>)
    ensures
        has_option(pipe_arguments(offset), "-i"@, "pipe:0"@),
        has_option(pipe_arguments(offset), "-output_ts_offset"@, offset),
        copies_to_mp4(pipe_arguments(offset)),
        has_option(playlist_arguments(input), "-i"@, input),
        has_option(playlist_arguments(input), "-t"@, "15"@),
        copies_to_mp4(playlist_arguments(input)),
        has_option(segment_arguments(input), "-i"@, input),
        copies_to_mp4(segment_arguments(input)),
        has_option(file_arguments(input, offset), "-i"@, input),
        has_option(file_arguments(input, offset), "-output_ts_offset"@, offset),
        copies_to_mp4(file_arguments(input, offset)),
        has_option(stretch_arguments(input, seek, duration), "-ss"@, seek),
        has_option(stretch_arguments(input, seek, duration), "-i"@, input),
        has_option(stretch_arguments(input, seek, duration), "-t"@, duration),
        copies_to_mp4(stretch_arguments(input, seek, duration)),
{
    let pipe = pipe_arguments(offset);
    assert(pipe[2] == "-i"@ && pipe[4] == "-c"@ && pipe[8] == "-output_ts_offset"@ && pipe[12] == "-f"@);
    let playlist = playlist_arguments(input);
    assert(playlist[6] == "-i"@ && playlist[8] == "-t"@ && playlist[10] == "-c"@ && playlist[14] == "-f"@);
    let segment = segment_arguments(input);
    assert(segment[4] == "-i"@ && segment[6] == "-c"@ && segment[12] == "-f"@);
    let file = file_arguments(input, offset);
    assert(file[6] == "-i"@ && file[8] == "-c"@ && file[12] == "-output_ts_offset"@ && file[16] == "-f"@);
    let stretch = stretch_arguments(input, seek, duration);
    assert(stretch[6] == "-ss"@ && stretch[8] == "-i"@ && stretch[10] == "-t"@ && stretch[12] == "-c"@ && stretch[18]
        == "-f"@);
}

} // verus!

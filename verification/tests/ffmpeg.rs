use hls2dash::transmux::ffmpeg::{
    file_args, pipe_args, playlist_args, playlist_segment_args, segment_args, spawn_error, transmux_outcome, Source,
};

#[test]
fn arguments_for_a_pipe() {
    assert_eq!(
        pipe_args("0.000000").join(" "),
        "-loglevel error -i pipe:0 -c copy -bsf:a aac_adtstoasc -output_ts_offset 0.000000 \
         -movflags empty_moov+delay_moov+frag_keyframe+default_base_moof -f mp4 pipe:1"
    );
}

#[test]
fn arguments_for_a_playlist() {
    assert_eq!(
        playlist_args("https://h/p.m3u8").join(" "),
        "-loglevel error -allowed_extensions ALL -protocol_whitelist file,http,https,tcp,tls,crypto \
         -i https://h/p.m3u8 -t 15 -c copy -movflags frag_keyframe+default_base_moof -f mp4 pipe:1"
    );
}

#[test]
fn arguments_for_a_segment() {
    assert_eq!(
        segment_args("https://h/s.ts").join(" "),
        "-loglevel error -protocol_whitelist file,http,https,tcp,tls,crypto -i https://h/s.ts -c copy \
         -bsf:a aac_adtstoasc -movflags empty_moov+delay_moov+frag_keyframe+default_base_moof -f mp4 pipe:1"
    );
}

#[test]
fn arguments_for_a_file() {
    assert_eq!(
        file_args("/tmp/a b.m3u8", "1.500000").join("|"),
        "-loglevel|error|-allowed_extensions|ALL|-protocol_whitelist|file,http,https,tcp,tls,crypto|-i|/tmp/a b.m3u8\
         |-c|copy|-bsf:a|aac_adtstoasc|-output_ts_offset|1.500000\
         |-movflags|empty_moov+delay_moov+frag_keyframe+default_base_moof|-f|mp4|pipe:1"
    );
}

#[test]
fn arguments_for_a_segment_of_a_playlist() {
    assert_eq!(
        playlist_segment_args("https://h/p.m3u8", 3, 6006).join(" "),
        "-loglevel error -allowed_extensions ALL -protocol_whitelist file,http,https,tcp,tls,crypto -ss 18.018 \
         -i https://h/p.m3u8 -t 6.006 -c copy -bsf:a aac_adtstoasc \
         -movflags empty_moov+delay_moov+frag_keyframe+default_base_moof -f mp4 pipe:1"
    );
    let largest = playlist_segment_args("u", usize::MAX, u64::MAX);
    assert_eq!(largest[7], "340282366920938463426481119284349108.225");
}

#[test]
fn spawn_errors() {
    let hint = "failed to spawn ffmpeg: no such file. Is ffmpeg installed and in PATH?";
    assert_eq!(spawn_error(Source::Pipe, "no such file"), hint);
    assert_eq!(spawn_error(Source::Playlist, "no such file"), hint);
    assert_eq!(spawn_error(Source::Segment, "x"), "failed to spawn ffmpeg: x");
    assert_eq!(spawn_error(Source::File, "x"), "failed to spawn ffmpeg: x");
}

#[test]
fn outcomes() {
    assert_eq!(transmux_outcome(Source::Pipe, true, vec![], ""), Ok(vec![]));
    assert_eq!(
        transmux_outcome(Source::Pipe, false, vec![1], "broken"),
        Err("ffmpeg transmux failed: broken".to_string())
    );
    assert_eq!(transmux_outcome(Source::Playlist, false, vec![1, 2], "cut"), Ok(vec![1, 2]));
    assert_eq!(
        transmux_outcome(Source::Playlist, true, vec![], "e"),
        Err("ffmpeg produced no output from URL: e".to_string())
    );
    assert_eq!(
        transmux_outcome(Source::Segment, true, vec![], "e"),
        Err("ffmpeg produced no output for segment URL: e".to_string())
    );
    assert_eq!(
        transmux_outcome(Source::File, true, vec![], "e"),
        Err("ffmpeg produced no output from mini-playlist: e".to_string())
    );
}

use voice::decode::{decode_step, select_track, AudioError, DecodeStep, PacketEvent, SampleFormat};

#[test]
fn decode_steps() {
    assert_eq!(decode_step(PacketEvent::NoPacket), DecodeStep::Finish);
    assert_eq!(decode_step(PacketEvent::OtherTrack), DecodeStep::Skip);
    assert_eq!(decode_step(PacketEvent::Decoded(SampleFormat::F32)), DecodeStep::Append(SampleFormat::F32));
    assert_eq!(decode_step(PacketEvent::Decoded(SampleFormat::S16)), DecodeStep::Append(SampleFormat::S16));
    assert_eq!(decode_step(PacketEvent::Decoded(SampleFormat::S32)), DecodeStep::Append(SampleFormat::S32));
    assert_eq!(
        decode_step(PacketEvent::Decoded(SampleFormat::Other)),
        DecodeStep::Fail(AudioError::UnsupportedFormat)
    );
    assert_eq!(decode_step(PacketEvent::Malformed), DecodeStep::Finish);
    assert_eq!(decode_step(PacketEvent::Failed), DecodeStep::Fail(AudioError::DecodeFailed));
}

#[test]
fn track_selection() {
    assert_eq!(select_track(&[None, Some(44100), Some(48000)]), Ok((1, 44100)));
    assert_eq!(select_track(&[Some(16000)]), Ok((0, 16000)));
    assert_eq!(select_track(&[None, None]), Err(AudioError::NoAudioTrack));
    assert_eq!(select_track(&[]), Err(AudioError::NoAudioTrack));
}

#[test]
fn audio_error_messages() {
    assert_eq!(AudioError::NoAudioTrack.message(), "No audio track found");
    assert_eq!(AudioError::UnsupportedFormat.message(), "Unsupported audio format");
    assert_eq!(AudioError::DecodeFailed.message(), "Decode error");
}

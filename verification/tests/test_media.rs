use video_use::media::{count_nonblank_lines, is_hdr_transfer, peak_magnitude, TONEMAP_CHAIN};

#[test]
fn test_count_audio_stream_lines() {
    assert_eq!(count_nonblank_lines("1\n2\n\n  \n3\n"), 3);
    assert_eq!(count_nonblank_lines(""), 0);
    assert_eq!(count_nonblank_lines("1\r\n2"), 2);
}

#[test]
fn test_hdr_transfers() {
    assert!(is_hdr_transfer("smpte2084\n"));
    assert!(is_hdr_transfer("  arib-std-b67"));
    assert!(!is_hdr_transfer("bt709\n"));
    assert!(!is_hdr_transfer(""));
    assert!(TONEMAP_CHAIN.starts_with("zscale=t=linear"));
}

#[test]
fn test_peak_magnitude() {
    assert_eq!(peak_magnitude(&[0i16; 1000]), 0);
    assert_eq!(peak_magnitude(&[32767]), 32767);
    assert_eq!(peak_magnitude(&[-32768, 5]), 32768);
    assert_eq!(peak_magnitude(&[]), 0);
}

use asan_report::report::{asan_post_process, AsanInfo};

fn extract(text: &str) -> Option<AsanInfo> {
    asan_post_process(&text.as_bytes().to_vec())
}

const ASAN_FPE: &str = "==12345==ERROR: AddressSanitizer: FPE on unknown address 0x560b425587af (pc 0x560b425587af bp 0x7ffc30e3a330 sp 0x7ffc30e3a2e0 T0)\n    #0 0x560b425587af in main /tmp/test.c:8\n    #1 0x7f6b3fe8a082 in __libc_start_main\n==12345==ABORTING\n";

const ASAN_SEGV: &str = "==4242==ERROR: AddressSanitizer: SEGV on unknown address 0x000000000000 (pc 0x561010d1d83b bp 0x000000000000 sp 0x7ffc7d3c2d10 T0)\n==4242==The signal is caused by a READ memory access.\n==4242==Hint: address points to the zero page.\n    #0 0x561010d1d83b in crash_segv /tmp/test.c:14\n    #1 0x7f00deadbeef in main /tmp/test.c:20\n==4242==ABORTING\n";

const ASAN_OOB_READ: &str = "=================================================================\n==777==ERROR: AddressSanitizer: stack-buffer-overflow on address 0x7ffd5e8e4a20 at pc 0x5561e001bba8 bp 0x7ffd5e8e49e0 sp 0x7ffd5e8e49d8\nREAD of size 4 at 0x7ffd5e8e4a20 thread T0\n    #0 0x5561e001bba8 in main /tmp/oob.c:6\n==777==ABORTING\n";

const ASAN_MULTI: &str = "==11111==ERROR: AddressSanitizer: FPE on unknown address 0x560b425587af (pc 0x560b425587af bp 0x7ffc30e3a330 sp 0x7ffc30e3a2e0 T0)\n    #0 0x560b425587af in main /tmp/test.c:8\n==11111==ABORTING\nchild restarted\n==32232==ERROR: AddressSanitizer: SEGV on unknown address 0x000000000000 (pc 0x561010d1d83b bp 0x000000000000 sp 0x7ffc7d3c2d10 T0)\n==32232==Hint: address points to the zero page.\n    #0 0x561010d1d83b in crash_segv /tmp/test.c:14\n==32232==ABORTING\nunrelated trailing text\n";

const ASAN_NO_END: &str = "==9999==ERROR: AddressSanitizer: SEGV on unknown address 0x000000000000 (pc 0x561010d1d83b bp 0x7ffd00000000 sp 0x7ffe00000000 T0)\n==9999==The signal is caused by a READ memory access.\n    #0 0x561010d1d83b in crash_segv /tmp/test.c:14\n    #1 0x7f00deadbeef in main /tmp/test.c:20\nSUMMARY: AddressSanitizer: SEGV /tmp/test.c:14 in crash_segv\n";

const ASAN_TRUNC: &str = "==5151==ERROR: AddressSanitizer: SEGV on unknown address 0x000000000060 (pc 0x561010d1d83b bp 0x000000000000 sp 0x7ffc7d3c2d10 T0)\n==5151==The signal is caused by a READ memory access.\n";

#[test]
fn test_asan_report_parsing() {
    let r = extract(ASAN_FPE).unwrap();

    assert_eq!(r.stop_reason, b"FPE".to_vec());
    assert_eq!(r.operation, b"".to_vec());
    assert_eq!(r.first_frame, 0x560b425587af);

    let r = extract(ASAN_SEGV).unwrap();

    assert_eq!(r.stop_reason, b"SEGV".to_vec());
    assert_eq!(r.operation, b"".to_vec());
    assert_eq!(r.first_frame, 0x561010d1d83b);

    let r = extract(ASAN_OOB_READ).unwrap();

    assert_eq!(r.stop_reason, b"stack-buffer-overflow".to_vec());
    assert_eq!(r.operation, b"READ".to_vec());
    assert_eq!(r.first_frame, 0x5561e001bba8);

    let r = extract(ASAN_MULTI).unwrap();

    assert_eq!(r.stop_reason, b"SEGV".to_vec());
    assert_eq!(r.operation, b"".to_vec());
    assert_eq!(r.first_frame, 0x561010d1d83b);
    assert!(r.body.ends_with(b"==32232=="));

    let r = extract(ASAN_NO_END).unwrap();

    assert_eq!(r.stop_reason, b"SEGV".to_vec());
    assert_eq!(r.operation, b"".to_vec());
    assert_eq!(r.first_frame, 0x561010d1d83b);
    assert!(r.body.ends_with(b"SUMMARY: AddressSanitizer: SEGV /tmp/test.c:14 in crash_segv"));

    let r = extract(ASAN_TRUNC).unwrap();

    assert_eq!(r.stop_reason, b"SEGV".to_vec());
    assert_eq!(r.operation, b"".to_vec());
    assert_eq!(r.first_frame, 0); // unable to get frames on truncated reports
    assert!(r.body.ends_with(b"access."));

    assert!(extract("").is_none());

    let m = "==1==ERROR: AddressSanitizer: CODE\n";
    assert_eq!(
        extract(m).unwrap(),
        AsanInfo {
            stop_reason: b"CODE".to_vec(),
            operation: b"".to_vec(),
            first_frame: 0,
            body: m.trim().as_bytes().to_vec(),
        }
    );
}

#[test]
fn test_empty_input_absent() {
    assert!(asan_post_process(&Vec::new()).is_none());
    assert!(extract("ordinary program output\nwith no crash at all\n").is_none());
}

#[test]
fn test_single_report_ends_at_terminator() {
    let r = extract(ASAN_FPE).unwrap();
    assert!(r.body.ends_with(b"==12345=="));
    assert!(!r.body.ends_with(b"ABORTING"));
    assert_eq!(r.stop_reason, b"FPE".to_vec());
    assert_eq!(r.operation, b"".to_vec());
    assert_eq!(r.first_frame, 0x560b425587af);
    assert!(r.body.starts_with(b"==12345==ERROR:"));
}

#[test]
fn test_second_report_selected() {
    let r = extract(ASAN_MULTI).unwrap();
    assert!(r.body.starts_with(b"==32232==ERROR:"));
    assert!(r.body.ends_with(b"==32232=="));
    assert_eq!(r.stop_reason, b"SEGV".to_vec());
    assert_eq!(r.first_frame, 0x561010d1d83b);
    let text = String::from_utf8(r.body).unwrap();
    assert!(!text.contains("unrelated trailing text"));
    assert!(!text.contains("==11111=="));
}

#[test]
fn test_summary_line_ends_body() {
    let r = extract(ASAN_NO_END).unwrap();
    assert!(r.body.ends_with(b"SUMMARY: AddressSanitizer: SEGV /tmp/test.c:14 in crash_segv"));
}

#[test]
fn test_truncated_report_consumes_rest() {
    let r = extract(ASAN_TRUNC).unwrap();
    assert_eq!(r.first_frame, 0);
    assert!(r.body.ends_with(b"access."));
    assert!(r.body.starts_with(b"==5151==ERROR:"));
}

#[test]
fn test_segv_forces_empty_operation() {
    let r = extract("==1==ERROR: AddressSanitizer: SEGV here\nWRITE of size 8\n").unwrap();
    assert_eq!(r.stop_reason, b"SEGV".to_vec());
    assert_eq!(r.operation, b"".to_vec());

    let r = extract("==1==ERROR: AddressSanitizer: FOO here\nWRITE of size 8\n").unwrap();
    assert_eq!(r.stop_reason, b"FOO".to_vec());
    assert_eq!(r.operation, b"WRITE".to_vec());
}

#[test]
fn test_extract_twice_equal() {
    let r1 = extract(ASAN_MULTI);
    let r2 = extract(ASAN_MULTI);
    assert_eq!(r1, r2);
    let r1 = extract(ASAN_TRUNC);
    let r2 = extract(ASAN_TRUNC);
    assert_eq!(r1, r2);
}

#[test]
fn test_attempting_word_skipped() {
    let r = extract("==7==ERROR: AddressSanitizer: attempting double-free on 0x60\nWRITE\n")
        .unwrap();
    assert_eq!(r.stop_reason, b"double-free".to_vec());
    assert_eq!(r.operation, b"WRITE".to_vec());
}

#[test]
fn test_frame_address_too_wide_gives_zero() {
    let r = extract(
        "==1==ERROR: AddressSanitizer: FPE somewhere\n    #0 0x11111111111111111 in f\n==1==ABORTING\n",
    )
    .unwrap();
    assert_eq!(r.first_frame, 0);

    let r = extract(
        "==1==ERROR: AddressSanitizer: FPE somewhere\n    #0 0xffffffffffffffff in f\n==1==ABORTING\n",
    )
    .unwrap();
    assert_eq!(r.first_frame, u64::MAX);
}

#[test]
fn test_single_eq_marker() {
    let r = extract("=1=ERROR: AddressSanitizer: FPE x\nframe data\n=1=ABORTING\n").unwrap();
    assert_eq!(r.stop_reason, b"FPE".to_vec());
    assert!(r.body.ends_with(b"=1="));
}

#[test]
fn test_crlf_line_endings() {
    let r = extract("==1==ERROR: AddressSanitizer: CODE\r\n==1==ABORTING\r\n").unwrap();
    assert_eq!(r.stop_reason, b"CODE".to_vec());
    assert_eq!(
        r.body,
        b"==1==ERROR: AddressSanitizer: CODE\r\n==1==ABORTING".to_vec()
    );
}

#[test]
fn test_summary_without_trailing_newline() {
    let r = extract("==1==ERROR: AddressSanitizer: SEGV x\nfoo\nSUMMARY: AddressSanitizer: SEGV")
        .unwrap();
    assert!(r.body.ends_with(b"SUMMARY: AddressSanitizer: SEGV"));
}

#[test]
fn test_headline_needs_line_break() {
    assert!(extract("==1==ERROR: AddressSanitizer: CODE").is_none());
    assert!(extract("==1==ERROR: AddressSanitizer:\n").is_none());
}

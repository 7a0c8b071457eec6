use subnet_monitor::address::from_octets;
use subnet_monitor::probe::{
    count_answered, count_marked_lines, find_line_end, part_contains, platform_for,
    probe_arguments, probe_program, verdict, Platform, DEFAULT_ATTEMPTS, DEFAULT_ECHO_TIMEOUT_MS,
};

const ALL_TIMED_OUT: &str = "\r\nPinging 192.168.100.7 with 32 bytes of data:\r\n\
Request timed out.\r\n\
Request timed out.\r\n\
Request timed out.\r\n\
Request timed out.\r\n\
\r\n\
Ping statistics for 192.168.100.7:\r\n    Packets: Sent = 4, Received = 0, Lost = 4 (100% loss),\r\n";

const ONE_ANSWER: &str = "\r\nPinging 192.168.100.5 with 32 bytes of data:\r\n\
Request timed out.\r\n\
Reply from 192.168.100.5: bytes=32 time<1ms TTL=64\r\n\
Request timed out.\r\n\
Request timed out.\r\n";

const WINDOWS_ALL_ANSWERED: &str = "\r\nPinging 192.168.100.5 with 32 bytes of data:\r\n\
Reply from 192.168.100.5: bytes=32 time<1ms TTL=64\r\n\
Reply from 192.168.100.5: bytes=32 time<1ms TTL=64\r\n\
Reply from 192.168.100.5: bytes=32 time=2ms TTL=64\r\n\
Reply from 192.168.100.5: bytes=32 time<1ms TTL=64\r\n\
\r\n\
Ping statistics for 192.168.100.5:\r\n    Packets: Sent = 4, Received = 4, Lost = 0 (0% loss),\r\n";

const WINDOWS_UNREACHABLE: &str = "\r\nPinging 192.168.100.7 with 32 bytes of data:\r\n\
Reply from 192.168.100.1: Destination host unreachable.\r\n\
Reply from 192.168.100.1: Destination host unreachable.\r\n\
Request timed out.\r\n\
Reply from 192.168.100.1: Destination host unreachable.\r\n";

const LINUX_ALL_ANSWERED: &str = "PING 192.168.100.5 (192.168.100.5) 56(84) bytes of data.\n\
64 bytes from 192.168.100.5: icmp_seq=1 ttl=64 time=0.31 ms\n\
64 bytes from 192.168.100.5: icmp_seq=2 ttl=64 time=0.28 ms\n\
64 bytes from 192.168.100.5: icmp_seq=3 ttl=64 time=0.30 ms\n\
64 bytes from 192.168.100.5: icmp_seq=4 ttl=64 time=0.29 ms\n\
\n\
--- 192.168.100.5 ping statistics ---\n\
4 packets transmitted, 4 received, 0% packet loss, time 3055ms\n";

const LINUX_NO_ANSWER: &str = "PING 192.168.100.7 (192.168.100.7) 56(84) bytes of data.\n\
\n\
--- 192.168.100.7 ping statistics ---\n\
4 packets transmitted, 0 received, 100% packet loss, time 3070ms\n";

const LINUX_UNREACHABLE: &str = "PING 192.168.100.7 (192.168.100.7) 56(84) bytes of data.\n\
From 192.168.100.1 icmp_seq=1 Destination Host Unreachable\n\
From 192.168.100.1 icmp_seq=2 Destination Host Unreachable\n\
\n\
--- 192.168.100.7 ping statistics ---\n\
4 packets transmitted, 0 received, +2 errors, 100% packet loss, time 3049ms\n";

#[test]
fn defaults_are_four_attempts_of_one_millisecond() {
    assert_eq!(DEFAULT_ATTEMPTS, 4);
    assert_eq!(DEFAULT_ECHO_TIMEOUT_MS, 1);
}

#[test]
fn windows_and_linux_are_supported() {
    assert_eq!(platform_for("windows"), Some(Platform::Windows));
    assert_eq!(platform_for("linux"), Some(Platform::Linux));
}

#[test]
fn other_platforms_are_not_supported() {
    assert_eq!(platform_for("macos"), None);
    assert_eq!(platform_for(""), None);
    assert_eq!(platform_for("Linux"), None);
    assert_eq!(platform_for("linux "), None);
    assert_eq!(platform_for("window"), None);
}

#[test]
fn probe_program_is_ping() {
    assert_eq!(probe_program(), "ping");
}

#[test]
fn windows_arguments() {
    assert_eq!(
        probe_arguments(Platform::Windows, 4, 1, from_octets(192, 168, 100, 5)),
        vec!["-n", "4", "-w", "1", "192.168.100.5"]
    );
}

#[test]
fn linux_arguments() {
    assert_eq!(
        probe_arguments(Platform::Linux, 4, 1, from_octets(192, 168, 100, 5)),
        vec!["-c", "4", "-W", "1", "192.168.100.5"]
    );
}

#[test]
fn arguments_carry_the_configured_numbers() {
    assert_eq!(
        probe_arguments(Platform::Linux, 12, 2500, from_octets(10, 0, 0, 254)),
        vec!["-c", "12", "-W", "2500", "10.0.0.254"]
    );
}

#[test]
fn all_attempts_timed_out_means_unreachable() {
    assert_eq!(count_answered(Platform::Windows, ALL_TIMED_OUT.as_bytes()), 0);
    assert!(!verdict(Platform::Windows, ALL_TIMED_OUT.as_bytes()));
}

#[test]
fn one_answer_is_enough() {
    assert_eq!(count_answered(Platform::Windows, ONE_ANSWER.as_bytes()), 1);
    assert!(verdict(Platform::Windows, ONE_ANSWER.as_bytes()));
}

#[test]
fn every_attempt_answered_means_reachable() {
    assert_eq!(count_answered(Platform::Windows, WINDOWS_ALL_ANSWERED.as_bytes()), 4);
    assert!(verdict(Platform::Windows, WINDOWS_ALL_ANSWERED.as_bytes()));
    assert_eq!(count_answered(Platform::Linux, LINUX_ALL_ANSWERED.as_bytes()), 4);
    assert!(verdict(Platform::Linux, LINUX_ALL_ANSWERED.as_bytes()));
}

#[test]
fn output_without_any_answer_means_unreachable() {
    for platform in [Platform::Windows, Platform::Linux] {
        assert_eq!(count_answered(platform, b""), 0);
        assert!(!verdict(platform, b""));
        assert!(!verdict(platform, b"\n"));
        assert!(!verdict(platform, b"ping: connect: Network is unreachable\n"));
        assert!(!verdict(platform, ALL_TIMED_OUT.as_bytes()));
        assert!(!verdict(platform, LINUX_NO_ANSWER.as_bytes()));
    }
}

#[test]
fn a_probe_that_errors_counts_like_one_that_timed_out() {
    assert!(!verdict(Platform::Windows, WINDOWS_UNREACHABLE.as_bytes()));
    assert!(!verdict(Platform::Linux, LINUX_UNREACHABLE.as_bytes()));
    assert!(!verdict(Platform::Windows, b"Request timed out.\r\nGeneral failure.\r\n"));
    assert!(!verdict(
        Platform::Windows,
        b"Ping request could not find host 192.168.100.7. Please check the name and try again.\r\n"
    ));
}

#[test]
fn fewer_timeouts_than_attempts_do_not_make_a_host_reachable() {
    let two = b"Request timed out.\nRequest timed out.\n";
    assert!(!verdict(Platform::Windows, two));
    assert!(!verdict(Platform::Linux, two));
}

#[test]
fn each_platform_has_its_own_wording() {
    assert!(verdict(Platform::Linux, b"64 bytes from 192.168.100.5: icmp_seq=1 ttl=64 time=0.31 ms\n"));
    assert!(!verdict(Platform::Windows, b"64 bytes from 192.168.100.5: icmp_seq=1 ttl=64 time=0.31 ms\n"));
    assert!(verdict(Platform::Windows, b"Reply from 192.168.100.5: bytes=32 time<1ms TTL=64\r\n"));
    assert!(!verdict(Platform::Linux, b"Reply from 192.168.100.5: bytes=32 time<1ms TTL=64\r\n"));
}

#[test]
fn a_line_counts_once_however_often_it_holds_the_marker() {
    assert_eq!(count_answered(Platform::Linux, b"ttl=64 ttl=64"), 1);
    assert_eq!(count_answered(Platform::Linux, b"ttl=64\nttl=64"), 2);
    assert_eq!(count_answered(Platform::Linux, b"ttl=64\nttl=64\n"), 2);
}

#[test]
fn the_marker_must_stand_within_one_line() {
    assert_eq!(count_answered(Platform::Linux, b"tt\nl=64"), 0);
    assert!(!verdict(Platform::Linux, b"tt\nl=64"));
    assert!(!verdict(Platform::Linux, b"ttl"));
    assert!(!verdict(Platform::Linux, b"ttl 64"));
    assert!(!verdict(Platform::Windows, b"TTL"));
    assert!(verdict(Platform::Linux, b"  xttl=y  "));
    assert!(verdict(Platform::Linux, b"ttl="));
}

#[test]
fn verdict_is_whether_the_marker_stands_in_the_output() {
    for text in [
        ALL_TIMED_OUT,
        ONE_ANSWER,
        WINDOWS_ALL_ANSWERED,
        LINUX_ALL_ANSWERED,
        LINUX_NO_ANSWER,
        WINDOWS_UNREACHABLE,
        LINUX_UNREACHABLE,
        "",
        "\n",
        "ttl=",
        "TTL=",
        "\n\nttl=1\n\n",
        "a\r\nTTL=1\r\nb",
        "Zeit\u{fc}berschreitung\nTTL=\u{2028}ttl=\n",
    ] {
        assert_eq!(verdict(Platform::Windows, text.as_bytes()), text.contains("TTL="));
        assert_eq!(verdict(Platform::Linux, text.as_bytes()), text.contains("ttl="));
        assert_eq!(
            count_answered(Platform::Windows, text.as_bytes()),
            text.lines().filter(|line| line.contains("TTL=")).count()
        );
        assert_eq!(
            count_answered(Platform::Linux, text.as_bytes()),
            text.lines().filter(|line| line.contains("ttl=")).count()
        );
    }
}

#[test]
fn count_marked_lines_takes_any_marker() {
    assert_eq!(count_marked_lines(b"ab\ncab\nba\n", b"ab"), 2);
    assert_eq!(count_marked_lines(b"ab\ncab\nba\n", b"abc"), 0);
    assert_eq!(count_marked_lines(b"x\ny\n", b""), 2);
    assert_eq!(count_marked_lines(b"x\n\ny", b""), 3);
    assert_eq!(count_marked_lines(b"", b""), 0);
}

#[test]
fn find_line_end_stops_at_newline_or_end() {
    assert_eq!(find_line_end(b"ab\ncd", 0), 2);
    assert_eq!(find_line_end(b"ab\ncd", 2), 2);
    assert_eq!(find_line_end(b"ab\ncd", 3), 5);
    assert_eq!(find_line_end(b"ab\ncd", 5), 5);
    assert_eq!(find_line_end(b"", 0), 0);
}

#[test]
fn part_contains_looks_only_inside_the_part() {
    let text = b"xxabcxx";
    assert!(part_contains(text, 0, 7, b"abc"));
    assert!(part_contains(text, 2, 5, b"abc"));
    assert!(!part_contains(text, 3, 7, b"abc"));
    assert!(!part_contains(text, 0, 4, b"abc"));
    assert!(!part_contains(text, 2, 4, b"abc"));
    assert!(part_contains(text, 3, 3, b""));
}

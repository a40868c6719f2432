use posixlib::errno::EINVAL;
use posixlib::unistd::{
    env_assignment, hostname_from_file, hostname_from_nodename, sleep_timespec, sleep_unslept,
    timespec, usleep_request, R_OK, STDERR_FILENO, W_OK, X_OK,
};

#[test]
fn sleep_requests() {
    let t = sleep_timespec(3);
    assert_eq!((t.tv_sec, t.tv_nsec), (3, 0));
    let t = sleep_timespec(u32::MAX);
    assert_eq!((t.tv_sec, t.tv_nsec), (u32::MAX as i64, 0));
    let t = usleep_request(1500).ok().unwrap();
    assert_eq!((t.tv_sec, t.tv_nsec), (0, 1_500_000));
    let t = usleep_request(999_999).ok().unwrap();
    assert_eq!((t.tv_sec, t.tv_nsec), (0, 999_999_000));
    let t = usleep_request(0).ok().unwrap();
    assert_eq!((t.tv_sec, t.tv_nsec), (0, 0));
}

#[test]
fn usleep_of_a_second_or_more_is_einval() {
    for u in [1_000_000u32, 4_294_967, 4_294_968, u32::MAX] {
        assert_eq!(usleep_request(u).err(), Some(EINVAL));
    }
}

#[test]
fn sleep_reports_unslept_seconds() {
    assert_eq!(sleep_unslept(false, timespec { tv_sec: 7, tv_nsec: 0 }), 0);
    assert_eq!(sleep_unslept(true, timespec { tv_sec: 3, tv_nsec: 0 }), 3);
    assert_eq!(sleep_unslept(true, timespec { tv_sec: 3, tv_nsec: 499_999_999 }), 3);
    assert_eq!(sleep_unslept(true, timespec { tv_sec: 3, tv_nsec: 500_000_000 }), 4);
    assert_eq!(sleep_unslept(true, timespec { tv_sec: 0, tv_nsec: 600_000_000 }), 1);
    assert_eq!(sleep_unslept(true, timespec { tv_sec: -1, tv_nsec: 0 }), 0);
    assert_eq!(sleep_unslept(true, timespec { tv_sec: i64::MAX, tv_nsec: 999_999_999 }), u32::MAX);
}

#[test]
fn hostname_from_uname() {
    assert_eq!(hostname_from_nodename(b"host\0\0\0", 10), b"host\0".to_vec());
    assert_eq!(hostname_from_nodename(b"host\0\0\0", 2), b"ho".to_vec());
    assert_eq!(hostname_from_nodename(b"host\0\0\0", 5), b"host\0".to_vec());
    assert_eq!(hostname_from_nodename(b"host\0\0\0", 0), Vec::<u8>::new());
    assert_eq!(hostname_from_nodename(b"abc", 10), b"abc".to_vec());
}

#[test]
fn hostname_from_file_contents() {
    assert_eq!(hostname_from_file(b"myhost\n", 3), b"myh".to_vec());
    assert_eq!(hostname_from_file(b"ab", 5), b"ab\0".to_vec());
    assert_eq!(hostname_from_file(b"ab", 2), b"ab".to_vec());
    assert_eq!(hostname_from_file(b"", 0), Vec::<u8>::new());
}

#[test]
fn environment_entries() {
    let a = env_assignment(b"PATH=/bin").unwrap();
    assert_eq!(a.path, b"env:PATH".to_vec());
    assert_eq!(a.value, Some(b"/bin".to_vec()));
    let a = env_assignment(b"EMPTY=").unwrap();
    assert_eq!(a.path, b"env:EMPTY".to_vec());
    assert_eq!(a.value, None);
    let a = env_assignment(b"A=b=c").unwrap();
    assert_eq!(a.path, b"env:A".to_vec());
    assert_eq!(a.value, Some(b"b=c".to_vec()));
    assert!(env_assignment(b"=x").is_none());
    assert!(env_assignment(b"NOEQ").is_none());
    assert!(env_assignment(b"").is_none());
}

#[test]
fn access_modes_are_distinct_bits() {
    assert_eq!(R_OK | W_OK | X_OK, 7);
    assert_eq!(STDERR_FILENO, 2);
}

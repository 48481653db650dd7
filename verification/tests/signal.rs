use rtmp_chunk::signal::{SignalKind, SignalRegistry, WindowsSignalKind};

#[test]
fn windows_kinds_map_to_portable_kinds() {
    assert_eq!(SignalKind::from(WindowsSignalKind::CtrlC), SignalKind::Interrupt);
    assert_eq!(SignalKind::from(WindowsSignalKind::CtrlClose), SignalKind::Terminate);
    assert_eq!(
        SignalKind::from(WindowsSignalKind::CtrlBreak),
        SignalKind::Windows(WindowsSignalKind::CtrlBreak)
    );
    assert_eq!(
        SignalKind::from(WindowsSignalKind::CtrlLogoff),
        SignalKind::Windows(WindowsSignalKind::CtrlLogoff)
    );
    assert_eq!(
        SignalKind::from(WindowsSignalKind::CtrlShutdown),
        SignalKind::Windows(WindowsSignalKind::CtrlShutdown)
    );
}

#[test]
fn unix_raw_numbers_map_to_portable_kinds() {
    assert_eq!(SignalKind::from_unix_raw(2), SignalKind::Interrupt);
    assert_eq!(SignalKind::from_unix_raw(15), SignalKind::Terminate);
    assert_eq!(SignalKind::from_unix_raw(10), SignalKind::Unix(10));
}

#[test]
fn kinds_match_their_sources() {
    assert!(SignalKind::Interrupt.matches_windows(WindowsSignalKind::CtrlC));
    assert!(!SignalKind::Interrupt.matches_windows(WindowsSignalKind::CtrlBreak));
    assert!(SignalKind::Terminate.matches_windows(WindowsSignalKind::CtrlClose));
    assert!(
        SignalKind::Windows(WindowsSignalKind::CtrlBreak)
            .matches_windows(WindowsSignalKind::CtrlBreak)
    );
    assert!(!SignalKind::Windows(WindowsSignalKind::CtrlBreak).matches_windows(WindowsSignalKind::CtrlC));
    // A wrapped kind compares plainly against its own signal, even where
    // the conversion would have mapped that signal to a portable kind.
    assert!(SignalKind::Windows(WindowsSignalKind::CtrlC).matches_windows(WindowsSignalKind::CtrlC));
    assert!(SignalKind::Interrupt.matches_unix_raw(2));
    assert!(SignalKind::Terminate.matches_unix_raw(15));
    assert!(SignalKind::Unix(10).matches_unix_raw(10));
    assert!(!SignalKind::Unix(10).matches_unix_raw(2));
    assert!(SignalKind::Unix(2).matches_unix_raw(2));
}

#[test]
fn registry_keeps_each_kind_once() {
    let mut reg = SignalRegistry::new();
    assert!(reg.try_add(SignalKind::Interrupt));
    assert!(reg.try_add(SignalKind::Terminate));
    assert!(!reg.try_add(SignalKind::Interrupt));
    assert!(reg.try_add(SignalKind::Unix(10)));
    assert!(!reg.try_add(SignalKind::Unix(10)));
    assert_eq!(reg.len(), 3);
    assert_eq!(reg.get(0), SignalKind::Interrupt);
    assert_eq!(reg.get(1), SignalKind::Terminate);
    assert_eq!(reg.get(2), SignalKind::Unix(10));
}

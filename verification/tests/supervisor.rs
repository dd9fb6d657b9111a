use window_relay::driver::{
    Driver, ForegroundWatcherCommand, ForegroundWatcherMessage, ImageViewerCommand,
    ImageViewerMessage, IterationActions, SessionPoll, StdinShellCommand,
};
use window_relay::window_capture::CapturedFrame;

fn frame_for(hwnd: isize) -> CapturedFrame {
    CapturedFrame { hwnd, width: 1, height: 1, bytes: vec![1, 2, 3, 4] }
}

fn focus_event(hwnd: isize) -> ForegroundWatcherMessage {
    ForegroundWatcherMessage::WindowChanged { hwnd }
}

#[test]
fn two_focus_events_make_two_sessions() {
    let mut d = Driver::new();
    let a: IterationActions = d.run_iteration(None, Some(focus_event(1)), None, Vec::new());
    assert_eq!(a.start, Some(1));
    let b = d.run_iteration(None, Some(focus_event(2)), None, Vec::new());
    assert_eq!(b.start, Some(2));
    assert_eq!(d.session_count(), 2);
    assert!(d.contains_session(1));
    assert!(d.contains_session(2));
    assert_eq!(d.current_focus(), Some(2));

    // Only frames tagged with the focused handle reach the viewer.
    let polls = vec![
        SessionPoll { hwnd: 1, closed: false, frame: Some(frame_for(1)) },
        SessionPoll { hwnd: 2, closed: false, frame: Some(frame_for(2)) },
    ];
    let c = d.run_iteration(None, None, None, polls);
    assert_eq!(c.forward.len(), 1);
    assert_eq!(c.forward[0].hwnd, 2);
}

#[test]
fn refocus_does_not_duplicate_a_session() {
    let mut d = Driver::new();
    d.run_iteration(None, Some(focus_event(1)), None, Vec::new());
    d.run_iteration(None, Some(focus_event(2)), None, Vec::new());
    let again = d.run_iteration(None, Some(focus_event(1)), None, Vec::new());
    assert_eq!(again.start, None);
    assert_eq!(d.session_count(), 2);
    assert_eq!(d.current_focus(), Some(1));
}

#[test]
fn closure_drops_pending_frame_and_session() {
    let mut d = Driver::new();
    d.run_iteration(None, Some(focus_event(1)), None, Vec::new());
    assert!(d.contains_session(1));

    // The worker reported closure while one of its frames was still unread;
    // closures are handled before frames in the same iteration.
    let polls = vec![SessionPoll { hwnd: 1, closed: true, frame: Some(frame_for(1)) }];
    let a = d.run_iteration(None, None, None, polls);
    assert_eq!(a.forward.len(), 0);
    assert_eq!(a.to_join, vec![1]);
    assert!(!d.contains_session(1));
    assert_eq!(d.session_count(), 0);
}

#[test]
fn closure_of_one_session_leaves_the_other() {
    let mut d = Driver::new();
    d.run_iteration(None, Some(focus_event(1)), None, Vec::new());
    d.run_iteration(None, Some(focus_event(2)), None, Vec::new());
    let polls = vec![
        SessionPoll { hwnd: 1, closed: true, frame: None },
        SessionPoll { hwnd: 2, closed: false, frame: Some(frame_for(2)) },
    ];
    let a = d.run_iteration(None, None, None, polls);
    assert_eq!(a.to_join, vec![1]);
    assert!(!d.contains_session(1));
    assert!(d.contains_session(2));
    assert_eq!(a.forward.len(), 1);
    assert_eq!(a.forward[0].hwnd, 2);
}

#[test]
fn viewer_closure_asks_for_shutdown_once() {
    let mut d = Driver::new();
    let a = d.run_iteration(Some(ImageViewerMessage::Closed), None, None, Vec::new());
    assert!(a.quit);
    // One command per collaborator, sent by the caller exactly once.
    let (im, fw, sh) = d.quit();
    assert!(matches!(im, ImageViewerCommand::Quit));
    assert!(matches!(fw, ForegroundWatcherCommand::Quit));
    assert!(matches!(sh, StdinShellCommand::Quit));
    // An ordinary iteration does not ask for shutdown.
    let b = d.run_iteration(None, None, None, Vec::new());
    assert!(!b.quit);
}

#[test]
fn unfocused_frame_is_dropped_not_queued() {
    let mut d = Driver::new();
    d.run_iteration(None, Some(focus_event(2)), None, Vec::new());
    match d.route_frame(frame_for(1)) {
        None => {}
        Some(_) => panic!("a frame for an unfocused window must be dropped"),
    }
    match d.route_frame(frame_for(2)) {
        Some(ImageViewerCommand::Update(f)) => assert_eq!(f.hwnd, 2),
        _ => panic!("the focused window's frame must be forwarded"),
    }
}

#[test]
fn fresh_driver_has_no_focus_and_no_sessions() {
    let d = Driver::new();
    assert_eq!(d.current_focus(), None);
    assert_eq!(d.session_count(), 0);
    assert!(!d.contains_session(0));
}

use lighter::animation::{AnimationState, AnimationTrack, Duration, Easing};

fn track(property: u64, duration: u32, delay: u32) -> AnimationTrack<&'static str> {
    AnimationTrack {
        property,
        from: "a",
        to: "b",
        duration: Duration::from_millis(duration),
        delay: Duration::from_millis(delay),
        easing: Easing::Linear,
        elapsed: Duration::from_millis(0),
    }
}

#[test]
fn a_track_completes_after_delay_and_duration() {
    let mut t = track(1, 100, 50);
    assert!(!t.is_complete());
    t.tick(Duration::from_millis(149));
    assert_eq!(t.elapsed, Duration::from_millis(149));
    assert!(!t.is_complete());
    t.tick(Duration::from_millis(1));
    assert!(t.is_complete());
}

#[test]
fn ticking_drops_completed_tracks_in_order() {
    let mut state = AnimationState::new();
    assert!(!state.is_animating());
    state.tracks.push(track(1, 100, 0));
    state.tracks.push(track(2, 10, 0));
    state.tracks.push(track(3, 300, 0));
    assert!(state.is_animating());
    assert!(state.tick(Duration::from_millis(50)));
    let left: Vec<u64> = state.tracks.iter().map(|t| t.property).collect();
    assert_eq!(left, vec![1, 3]);
    assert_eq!(state.tracks[0].elapsed, Duration::from_millis(50));
    assert!(state.tick(Duration::from_millis(100)));
    assert_eq!(state.tracks.len(), 1);
    assert!(!state.tick(Duration::from_millis(150)));
}

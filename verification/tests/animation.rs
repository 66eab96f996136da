use hyprwpe::animation::{AnimMode, AnimOptions, Animation, Keyframe, Place, Track};

fn track(keys: &[(u32, f32)]) -> Option<Track> {
    Some(Track {
        keys: keys
            .iter()
            .map(|(frame, value)| Keyframe {
                frame: *frame,
                value: value.to_bits(),
            })
            .collect(),
    })
}

fn options(fps: f32, length: u32, mode: AnimMode) -> AnimOptions {
    AnimOptions {
        fps: fps.to_bits(),
        length,
        mode,
        ..AnimOptions::default()
    }
}

fn scalar(keys: &[(u32, f32)], options: AnimOptions) -> Animation {
    Animation {
        c0: track(keys),
        c1: None,
        c2: None,
        options,
    }
}

/// Single-precision values that are not negative are ordered as their bits are.
fn rank(v: f32) -> u32 {
    v.max(0.0).to_bits()
}

fn sample_track(a: &Animation, t: &Track, time: f32) -> Option<f32> {
    let time = if a.options.startpaused { 0.0 } else { time };
    let length = a.length() as f32;
    let mut frame = time * f32::from_bits(a.options.fps);
    if length > 0.0 {
        frame = match a.options.mode {
            AnimMode::Single => frame.min(length),
            AnimMode::Loop => frame % length,
            AnimMode::Mirror => {
                let m = frame % (length * 2.0);
                if m > length {
                    length * 2.0 - m
                } else {
                    m
                }
            }
        };
    }
    let ranks: Vec<u32> = t.keys.iter().map(|k| rank(k.frame as f32)).collect();
    match t.locate(&ranks, Some(rank(frame))) {
        Place::Nowhere => None,
        Place::At(i) => Some(f32::from_bits(t.keys[i].value)),
        Place::Between(i, j) => {
            let (a, b) = (&t.keys[i], &t.keys[j]);
            let (va, vb) = (f32::from_bits(a.value), f32::from_bits(b.value));
            let span = (b.frame - a.frame) as f32;
            Some(va + (vb - va) * ((frame - a.frame as f32) / span))
        }
    }
}

fn sample(a: &Animation, time: f32) -> Option<f32> {
    sample_track(a, a.track_for(0)?, time)
}

fn sample_vec3(a: &Animation, time: f32) -> Option<[f32; 3]> {
    let x = sample(a, time)?;
    let y = sample_track(a, a.track_for(1)?, time)?;
    let z = sample_track(a, a.track_for(2)?, time)?;
    Some([x, y, z])
}

#[test]
fn parses_a_real_alpha_animation() {
    // Shape taken from the corpus (Play/Pause icon fade in the Akali scene).
    let mut o = options(30.0, 18, AnimMode::Single);
    o.startpaused = true;
    let a = scalar(&[(0, 0.0), (1, 1.0), (2, 1.0), (18, 0.0)], o);
    assert_eq!(f32::from_bits(a.options.fps), 30.0);
    assert_eq!(a.options.length, 18);
    assert_eq!(a.options.mode, AnimMode::Single);
    assert!(a.options.startpaused);
    assert_eq!(a.length(), 18);
}

#[test]
fn single_holds_after_the_last_key() {
    let a = scalar(&[(0, 0.0), (10, 1.0)], options(10.0, 10, AnimMode::Single));
    assert_eq!(sample(&a, 0.0), Some(0.0));
    assert!((sample(&a, 0.5).unwrap() - 0.5).abs() < 1e-6); // frame 5
    assert_eq!(sample(&a, 1.0), Some(1.0)); // frame 10
    assert_eq!(sample(&a, 5.0), Some(1.0)); // past the end: hold
}

#[test]
fn loop_wraps_back_to_the_start() {
    let a = scalar(&[(0, 0.0), (10, 1.0)], options(10.0, 10, AnimMode::Loop));
    // frame 10 is one full cycle, so it wraps to frame 0.
    assert_eq!(sample(&a, 1.0), Some(0.0));
    assert!((sample(&a, 1.05).unwrap() - 0.05).abs() < 1e-6); // frame 10.5 -> 0.5
}

#[test]
fn mirror_ping_pongs() {
    let a = scalar(&[(0, 0.0), (10, 1.0)], options(10.0, 10, AnimMode::Mirror));
    assert_eq!(sample(&a, 1.0), Some(1.0)); // frame 10: peak
    assert!((sample(&a, 1.5).unwrap() - 0.5).abs() < 1e-6); // frame 15 -> reflected to 5
    assert_eq!(sample(&a, 2.0), Some(0.0)); // frame 20 -> back to start
}

#[test]
fn vector_animation_uses_three_tracks() {
    let a = Animation {
        c0: track(&[(0, 0.0), (10, 10.0)]),
        c1: track(&[(0, 100.0), (10, 200.0)]),
        c2: track(&[(0, 0.0), (10, 0.0)]),
        options: options(10.0, 10, AnimMode::Single),
    };
    let v = sample_vec3(&a, 1.0).unwrap();
    assert_eq!(v, [10.0, 200.0, 0.0]);
}

#[test]
fn a_single_key_is_constant() {
    let a = scalar(&[(7, 3.0)], options(30.0, 0, AnimMode::Single));
    assert_eq!(sample(&a, 0.0), Some(3.0));
    assert_eq!(sample(&a, 10.0), Some(3.0));
}

#[test]
fn absent_length_uses_the_last_key() {
    let a = scalar(&[(0, 0.0), (42, 1.0)], options(30.0, 0, AnimMode::Single));
    assert_eq!(a.length(), 42);
    // loop without a declared length still wraps at 42 frames
    let a2 = scalar(&[(0, 0.0), (42, 1.0)], options(30.0, 0, AnimMode::Loop));
    let t = 42.0 / 30.0;
    assert_eq!(sample(&a2, t), Some(0.0));
}

#[test]
fn startpaused_holds_the_first_frame() {
    // Without scene scripting there is nothing to unpause such an
    // animation, so it must stay at its first frame rather than run free.
    let mut o = options(10.0, 10, AnimMode::Loop);
    o.startpaused = true;
    let a = scalar(&[(0, 0.0), (10, 1.0)], o);
    assert_eq!(sample(&a, 0.0), Some(0.0));
    assert_eq!(sample(&a, 5.0), Some(0.0));
}

#[test]
fn empty_animation_samples_nothing() {
    let a = Animation {
        c0: None,
        c1: None,
        c2: None,
        options: options(30.0, 10, AnimMode::Single),
    };
    assert_eq!(sample(&a, 0.0), None);
    assert_eq!(sample_vec3(&a, 0.0), None);
}

#[test]
fn samples_lie_between_keys() {
    let t = track(&[(0, 0.0), (10, 1.0), (20, 2.0)]).unwrap();
    let ranks = vec![0, 10, 20];
    assert_eq!(t.locate(&ranks, Some(0)), Place::At(0));
    assert_eq!(t.locate(&ranks, Some(1)), Place::Between(0, 1));
    assert_eq!(t.locate(&ranks, Some(10)), Place::Between(0, 1));
    assert_eq!(t.locate(&ranks, Some(11)), Place::Between(1, 2));
    assert_eq!(t.locate(&ranks, Some(21)), Place::At(2));
    // What is no number is behind every key.
    assert_eq!(t.locate(&ranks, None), Place::At(2));
    let empty = Track { keys: vec![] };
    assert_eq!(empty.locate(&vec![], Some(0)), Place::Nowhere);
}

#[test]
fn the_longest_track_is_the_length() {
    let a = Animation {
        c0: track(&[(5, 0.0)]),
        c1: track(&[(9, 0.0), (3, 0.0)]),
        c2: track(&[]),
        options: AnimOptions::default(),
    };
    assert_eq!(a.length(), 9);
    assert_eq!(f32::from_bits(a.options.fps), 30.0);
    assert_eq!(a.track_for(2).unwrap().keys.len(), 0);
    let b = scalar(&[(5, 0.0)], AnimOptions::default());
    assert_eq!(b.track_for(1), b.c0.as_ref());
}

#[test]
fn the_furthest_key_is_the_length_wherever_it_stands() {
    let a = scalar(&[(42, 0.0), (10, 1.0)], options(30.0, 0, AnimMode::Single));
    assert_eq!(a.length(), 42);
}

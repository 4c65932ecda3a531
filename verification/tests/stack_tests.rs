use soustraire::imagestack::ImageStack;
use soustraire::DiscoveryError;

fn stack_with(frames: Vec<&str>) -> ImageStack {
    let mut st = ImageStack::default();
    let listing: Vec<String> = frames.into_iter().map(|s| s.to_string()).collect();
    assert!(st.set_homedir("/data".to_string(), vec![listing]));
    st
}

#[test]
fn test_set_homedir_picks_first_nonempty() {
    let mut st = ImageStack::default();
    let jpgs: Vec<String> = vec![];
    let tifs = vec!["b.tif".to_string(), "a.tif".to_string(), "c.tif".to_string()];
    let ok = st.set_homedir("/data".to_string(), vec![jpgs, tifs]);
    assert!(ok);
    assert_eq!(st.homedir.as_deref(), Some("/data"));
    let stacks = st.get_stacks().unwrap();
    assert_eq!(stacks, vec!["a.tif", "b.tif", "c.tif"]);
}

#[test]
fn test_set_homedir_first_pattern_wins() {
    // Both listings match something: the first one is used, not a union.
    let mut st = ImageStack::default();
    let jpgs = vec!["z.jpg".to_string(), "y.jpg".to_string()];
    let tifs = vec!["a.tif".to_string()];
    assert!(st.set_homedir("/data".to_string(), vec![jpgs, tifs]));
    assert_eq!(st.get_stacks().unwrap(), vec!["y.jpg", "z.jpg"]);
}

#[test]
fn test_set_homedir_no_match_keeps_old_stacks() {
    let mut st = stack_with(vec!["a.jpg"]);
    let ok = st.set_homedir("/other".to_string(), vec![vec![], vec![]]);
    assert!(!ok);
    assert_eq!(st.homedir.as_deref(), Some("/other"));
    assert_eq!(st.get_stacks().unwrap(), vec!["a.jpg"]);
}

#[test]
fn test_len_and_max_slice() {
    let empty = ImageStack::default();
    assert_eq!(empty.len(), 0);
    assert_eq!(empty.max_slice(), 0);
    let st = stack_with(vec!["a", "b", "c"]);
    assert_eq!(st.len(), 3);
    assert_eq!(st.max_slice(), 2);
}

#[test]
fn test_get_current_images() {
    let mut st = stack_with(vec!["f0", "f1", "f2", "f3"]);
    st.pos = 0;
    assert_eq!(st.get_current_images(1), (None, Some("f0".to_string())));
    st.pos = 2;
    assert_eq!(
        st.get_current_images(1),
        (Some("f1".to_string()), Some("f2".to_string()))
    );
    assert_eq!(
        st.get_current_images(2),
        (Some("f0".to_string()), Some("f2".to_string()))
    );
    // Step larger than the position: no previous frame.
    assert_eq!(st.get_current_images(3), (None, Some("f2".to_string())));
    // No frames loaded at all.
    let bare = ImageStack::default();
    assert_eq!(bare.get_current_images(1), (None, None));
}

#[test]
fn test_wrapping_navigation() {
    let mut st = stack_with(vec!["f0", "f1", "f2", "f3"]);
    st.pos = 3;
    st.advance_wrapping(1);
    assert_eq!(st.pos, 0);
    st.advance_wrapping(2);
    assert_eq!(st.pos, 2);
    st.rewind_wrapping(3);
    assert_eq!(st.pos, 3);
    st.rewind_wrapping(4);
    assert_eq!(st.pos, 3);
}

#[test]
fn test_discovery_error_variants() {
    assert_ne!(DiscoveryError::NoFramesFound, DiscoveryError::Unreadable);
}

#[test]
fn test_discovery_order_reproducible() {
    // Whatever order the directory listing arrives in, the adopted stack
    // comes out in the same sorted order.
    let st1 = stack_with(vec!["c.jpg", "a.jpg", "b.jpg"]);
    let st2 = stack_with(vec!["b.jpg", "c.jpg", "a.jpg"]);
    assert_eq!(st1.get_stacks(), st2.get_stacks());
    assert_eq!(st1.get_stacks().unwrap(), vec!["a.jpg", "b.jpg", "c.jpg"]);
}

#[test]
fn test_set_homedir_resets_cursor() {
    // Adopting a directory positions the stack at the first frame.
    let mut st = stack_with(vec!["a.jpg", "b.jpg", "c.jpg"]);
    st.pos = 2;
    assert!(st.set_homedir("/data2".to_string(), vec![vec!["x.jpg".to_string()]]));
    assert_eq!(st.pos, 0);
    // A failed adoption keeps the cursor where it was.
    st.pos = 0;
    assert!(!st.set_homedir("/data3".to_string(), vec![vec![]]));
    assert_eq!(st.pos, 0);
}

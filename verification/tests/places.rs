use matterless_view::places::Places;

/// Back and on walk the same list, and end up where they started.
#[test]
fn going_back_and_on_again_returns_where_you_were() {
    let mut places = Places::default();
    for one in ["dev", "art", "crash"] {
        places.arrived(one);
    }
    assert_eq!(places.here(), Some("crash"));

    assert_eq!(places.back(), Some("art"));
    assert_eq!(places.back(), Some("dev"));
    assert_eq!(places.back(), None, "there is nothing before the first");
    assert_eq!(places.here(), Some("dev"), "and it stayed put");

    assert_eq!(places.on(), Some("art"));
    assert_eq!(places.on(), Some("crash"));
    assert_eq!(places.on(), None, "there is nothing past the last");
    assert_eq!(places.here(), Some("crash"));
}

/// A new place opened from part-way along drops what was ahead.
#[test]
fn arriving_from_part_way_along_drops_what_was_ahead() {
    let mut places = Places::default();
    for one in ["dev", "art", "crash"] {
        places.arrived(one);
    }
    places.back();
    assert_eq!(places.here(), Some("art"));

    places.arrived("perf");
    assert_eq!(places.here(), Some("perf"));
    assert_eq!(places.on(), None, "crash is still ahead of perf");
    assert_eq!(places.back(), Some("art"), "and art is still behind it");
}

/// Arriving where you already are changes nothing.
#[test]
fn arriving_where_you_already_are_is_not_a_place() {
    let mut places = Places::default();
    places.arrived("dev");
    for _ in 0..5 {
        places.arrived("dev");
    }
    assert_eq!(places.back(), None, "the same channel five times over");

    places.arrived("art");
    places.arrived("dev");
    assert_eq!(places.back(), Some("art"));
}

/// An empty history answers nothing rather than pretending.
#[test]
fn nowhere_visited_is_nowhere_to_go() {
    let mut places = Places::default();
    assert_eq!(places.here(), None);
    assert_eq!(places.back(), None);
    assert_eq!(places.on(), None);
}

#[test]
fn back_then_on_is_where_you_were() {
    let mut places = Places::new();
    for one in ["a", "b", "c", "d"] {
        places.arrived(one);
    }
    places.back();
    places.back();
    assert_eq!(places.here(), Some("b"));
    places.on();
    places.back();
    assert_eq!(places.here(), Some("b"));
}

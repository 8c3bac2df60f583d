use pathtracer::background::{overhead_light, sky, OverheadLight, Sky};
use pathtracer::disc::Visibility;
use pathtracer::integrator::{choose_mis, next_step, MisChoice, Step, Vertex, MAX_BOUNCES};
use pathtracer::random::rand_range;

#[test]
fn rand_range_stays_in_range() {
    for _ in 0..1000 {
        let r = rand_range(3, 8);
        assert!((3..8).contains(&r));
    }
    assert_eq!(rand_range(5, 5), 5);
    assert_eq!(rand_range(9, 10), 9);
}

#[test]
fn rand_range_reaches_every_value() {
    let mut seen = [false; 4];
    for _ in 0..2000 {
        seen[rand_range(0, 4)] = true;
    }
    assert!(seen.iter().all(|s| *s));
}

#[test]
fn backgrounds_are_built() {
    assert_eq!(sky(), Sky {});
    assert_eq!(overhead_light(), OverheadLight {});
    assert_ne!(Visibility::Full, Visibility::Hidden);
    assert_ne!(Visibility::Partial, Visibility::Full);
}

#[test]
fn steps_follow_the_vertex() {
    assert_eq!(next_step(0, Vertex::Faded, 3), Step::Black);
    assert_eq!(next_step(0, Vertex::Escaped, 3), Step::Background);
    assert_eq!(next_step(7, Vertex::Surface { wants_importance_sampling: false }, 3), Step::Scatter);
    assert_eq!(next_step(7, Vertex::Surface { wants_importance_sampling: true }, 0), Step::Scatter);
    for _ in 0..100 {
        match next_step(1, Vertex::Surface { wants_importance_sampling: true }, 3) {
            Step::SampleLight { light } => assert!(light < 3),
            other => panic!("unexpected {:?}", other),
        }
    }
}

#[test]
fn bounce_budget_truncates() {
    assert_eq!(MAX_BOUNCES, 50);
    assert_eq!(next_step(49, Vertex::Escaped, 0), Step::Background);
    assert_eq!(next_step(50, Vertex::Escaped, 0), Step::Truncate);
    assert_eq!(next_step(50, Vertex::Faded, 2), Step::Truncate);
}

#[test]
fn mis_choice_follows_densities_and_coin() {
    assert_eq!(choose_mis(true, true, true), MisChoice::Light);
    assert_eq!(choose_mis(true, true, false), MisChoice::Material);
    assert_eq!(choose_mis(false, true, true), MisChoice::Material);
    assert_eq!(choose_mis(true, false, false), MisChoice::Black);
    assert_eq!(choose_mis(false, false, true), MisChoice::Black);
}

#[test]
fn basic_tests() {
    let light = overhead_light();
    assert_eq!(light, OverheadLight {});
}

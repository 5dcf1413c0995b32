//! The steps in which an overlay is drawn.
use crate::config::{BoxShape, FilterConfig};
use crate::overlay::fill::{fill_sources, source_of};
use vstd::prelude::*;

verus! {

/// A step of drawing an overlay. Boxes are given by their position.
#[derive(Debug, Clone, Copy, PartialEq, Eq, Structural)]
pub enum Step {
    /// Fill a box, at random with the contents of the box `source`.
    Fill { index: usize, source: Option<usize> },
    /// Stroke a box with straight sides.
    StrokeRect { index: usize },
    /// Stroke a round box.
    StrokeEllipse { index: usize },
    /// Mark the centre of a box.
    Marker { index: usize },
    /// Connect the centres of the boxes.
    Lines,
    /// Label the boxes.
    Text,
}

/// The stroke of a box.
pub open spec fn stroke_step(cfg: FilterConfig, index: usize) -> Step {
    match cfg.box_shape {
        BoxShape::Rectangle | BoxShape::Square => Step::StrokeRect { index },
        BoxShape::Ellipse | BoxShape::Circle => Step::StrokeEllipse { index },
    }
}

/// The steps that fill and stroke the first `k` of `n` boxes.
pub open spec fn box_steps(n: int, cfg: FilterConfig, k: int) -> Seq<Step>
    decreases k,
{
    if k <= 0 {
        Seq::empty()
    } else {
        let i = k - 1;
        let before = box_steps(n, cfg, i);
        let fill = if cfg.fill_enabled {
            before.push(Step::Fill { index: i as usize, source: source_of(n, cfg, i) })
        } else {
            before
        };
        if cfg.stroke_enabled {
            fill.push(stroke_step(cfg, i as usize))
        } else {
            fill
        }
    }
}

/// The steps that mark `n` boxes.
pub open spec fn marker_steps(n: int) -> Seq<Step> {
    Seq::new(n as nat, |i: int| Step::Marker { index: i as usize })
}

/// The steps that draw the overlay of `n` boxes: boxes, markers, lines, text.
pub open spec fn steps_of(n: int, cfg: FilterConfig) -> Seq<Step> {
    if n == 0 {
        Seq::empty()
    } else {
        (if cfg.box_enabled {
            box_steps(n, cfg, n)
        } else {
            Seq::empty()
        }) + (if cfg.marker_enabled {
            marker_steps(n)
        } else {
            Seq::empty()
        }) + (if cfg.line_enabled && n >= 2 {
            seq![Step::Lines]
        } else {
            Seq::empty()
        }) + (if cfg.text_enabled {
            seq![Step::Text]
        } else {
            Seq::empty()
        })
    }
}

/// The steps that draw the overlay of `n` boxes.
pub fn overlay_steps(n: usize, cfg: &FilterConfig) -> (steps: Vec<Step>)
    ensures
        steps@ == steps_of(n as int, *cfg),
{
    let mut steps: Vec<Step> = Vec::new();
    if n == 0 {
        return steps;
    }
    if cfg.box_enabled {
        let sources = fill_sources(n, cfg);
        let mut i: usize = 0;
        while i < n
            invariant
                i <= n,
                sources@ == Seq::new(n as nat, |i: int| source_of(n as int, *cfg, i)),
                steps@ == box_steps(n as int, *cfg, i as int),
            decreases n - i,
        {
            if cfg.fill_enabled {
                steps.push(Step::Fill { index: i, source: sources[i] });
            }
            if cfg.stroke_enabled {
                match cfg.box_shape {
                    BoxShape::Rectangle | BoxShape::Square => {
                        steps.push(Step::StrokeRect { index: i });
                    },
                    BoxShape::Ellipse | BoxShape::Circle => {
                        steps.push(Step::StrokeEllipse { index: i });
                    },
                }
            }
            i = i + 1;
        }
    }
    let ghost boxes = steps@;
    if cfg.marker_enabled {
        let mut i: usize = 0;
        while i < n
            invariant
                i <= n,
                steps@ =~= boxes + marker_steps(n as int).take(i as int),
            decreases n - i,
        {
            steps.push(Step::Marker { index: i });
            i = i + 1;
        }
        assert(marker_steps(n as int).take(n as int) =~= marker_steps(n as int));
    }
    if cfg.line_enabled && n >= 2 {
        steps.push(Step::Lines);
    }
    if cfg.text_enabled {
        steps.push(Step::Text);
    }
    assert(steps@ =~= steps_of(n as int, *cfg));
    steps
}

/// Without boxes nothing is drawn, and neither is anything where every part of
/// the overlay is off.
pub proof fn law_nothing_to_draw(n: int, cfg: FilterConfig)
    requires
        0 <= n,
        n == 0 || !cfg.box_enabled && !cfg.marker_enabled && !cfg.line_enabled
            && !cfg.text_enabled,
    ensures
        steps_of(n, cfg) == Seq::<Step>::empty(),
{
}

proof fn lemma_box_step_indices(n: int, cfg: FilterConfig, k: int)
    requires
        0 <= k <= n <= usize::MAX,
    ensures
        forall|j: int|
            0 <= j < box_steps(n, cfg, k).len() ==> match #[trigger] box_steps(n, cfg, k)[j] {
                Step::Fill { index, source } => index < k && source == source_of(
                    n,
                    cfg,
                    index as int,
                ),
                Step::StrokeRect { index } => index < k,
                Step::StrokeEllipse { index } => index < k,
                _ => false,
            },
    decreases k,
{
    if k > 0 {
        lemma_box_step_indices(n, cfg, k - 1);
        let before = box_steps(n, cfg, k - 1);
        let all = box_steps(n, cfg, k);
        assert forall|j: int| 0 <= j < all.len() implies match #[trigger] all[j] {
            Step::Fill { index, source } => index < k && source == source_of(
                n,
                cfg,
                index as int,
            ),
            Step::StrokeRect { index } => index < k,
            Step::StrokeEllipse { index } => index < k,
            _ => false,
        } by {
            if j < before.len() {
                assert(all[j] == before[j]);
            }
        }
    }
}

/// Every step speaks of boxes that are there.
pub proof fn law_steps_stay_among_the_boxes(n: usize, cfg: FilterConfig, j: int)
    requires
        0 <= j < steps_of(n as int, cfg).len(),
    ensures
        match steps_of(n as int, cfg)[j] {
            Step::Fill { index, source } => index < n && source == source_of(
                n as int,
                cfg,
                index as int,
            ),
            Step::StrokeRect { index } => index < n,
            Step::StrokeEllipse { index } => index < n,
            Step::Marker { index } => index < n,
            Step::Lines => n >= 2,
            Step::Text => true,
        },
{
    lemma_box_step_indices(n as int, cfg, n as int);
    let boxes = if cfg.box_enabled {
        box_steps(n as int, cfg, n as int)
    } else {
        Seq::empty()
    };
    if j < boxes.len() {
        assert(steps_of(n as int, cfg)[j] == boxes[j]);
    }
}

/// The layer that a step belongs to: boxes lie under markers, those under lines,
/// those under text.
pub open spec fn layer(step: Step) -> int {
    match step {
        Step::Fill { .. } => 0,
        Step::StrokeRect { .. } => 0,
        Step::StrokeEllipse { .. } => 0,
        Step::Marker { .. } => 1,
        Step::Lines => 2,
        Step::Text => 3,
    }
}

/// The box that a step draws, and whether it is stroked: boxes come one after
/// the other, each filled before it is stroked.
pub open spec fn turn(step: Step) -> int {
    match step {
        Step::Fill { index, .. } => 2 * index,
        Step::StrokeRect { index } => 2 * index + 1,
        Step::StrokeEllipse { index } => 2 * index + 1,
        Step::Marker { index } => index as int,
        _ => 0,
    }
}

proof fn lemma_box_steps_listed(n: int, cfg: FilterConfig, k: int, i: usize)
    requires
        0 <= k <= n <= usize::MAX,
    ensures
        box_steps(n, cfg, k).contains(Step::Fill { index: i, source: source_of(n, cfg, i as int) })
            <==> cfg.fill_enabled && i < k,
        box_steps(n, cfg, k).contains(Step::StrokeRect { index: i }) <==> cfg.stroke_enabled && i < k
            && (cfg.box_shape == BoxShape::Rectangle || cfg.box_shape == BoxShape::Square),
        box_steps(n, cfg, k).contains(Step::StrokeEllipse { index: i }) <==> cfg.stroke_enabled && i
            < k && (cfg.box_shape == BoxShape::Ellipse || cfg.box_shape == BoxShape::Circle),
        forall|a: int, b: int|
            0 <= a < b < box_steps(n, cfg, k).len() ==> turn(
                #[trigger] box_steps(n, cfg, k)[a],
            ) < turn(#[trigger] box_steps(n, cfg, k)[b]),
        forall|a: int|
            0 <= a < box_steps(n, cfg, k).len() ==> turn(#[trigger] box_steps(n, cfg, k)[a]) < 2 * k
                && layer(box_steps(n, cfg, k)[a]) == 0,
    decreases k,
{
    broadcast use vstd::seq_lib::lemma_seq_contains_after_push;
    broadcast use vstd::seq_lib::lemma_seq_empty_contains_nothing;

    if k > 0 {
        lemma_box_steps_listed(n, cfg, k - 1, i);
        let before = box_steps(n, cfg, k - 1);
        let all = box_steps(n, cfg, k);
        assert forall|a: int| 0 <= a < all.len() implies turn(#[trigger] all[a]) < 2 * k && layer(
            all[a],
        ) == 0 by {
            if a < before.len() {
                assert(all[a] == before[a]);
            }
        }
        assert forall|a: int, b: int| 0 <= a < b < all.len() implies turn(#[trigger] all[a]) < turn(
            #[trigger] all[b],
        ) by {
            if a < before.len() {
                assert(all[a] == before[a]);
            }
            if b < before.len() {
                assert(all[b] == before[b]);
            }
        }
    }
}

/// An overlay has just the steps that are switched on: a fill and a stroke of
/// the right form for each box, a marker for each, the lines where there are two
/// boxes at least, and the text.
#[verifier::spinoff_prover]
#[verifier::rlimit(40)]
pub proof fn law_steps_are_those_switched_on(n: usize, cfg: FilterConfig, i: usize)
    ensures
        ({
            let steps = steps_of(n as int, cfg);
            let boxes = cfg.box_enabled && i < n;
            &&& (exists|source: Option<usize>|
                #[trigger] steps.contains(Step::Fill { index: i, source })) <==> boxes
                && cfg.fill_enabled
            &&& steps.contains(Step::StrokeRect { index: i }) <==> boxes && cfg.stroke_enabled && (
            cfg.box_shape == BoxShape::Rectangle || cfg.box_shape == BoxShape::Square)
            &&& steps.contains(Step::StrokeEllipse { index: i }) <==> boxes && cfg.stroke_enabled
                && (cfg.box_shape == BoxShape::Ellipse || cfg.box_shape == BoxShape::Circle)
            &&& steps.contains(Step::Marker { index: i }) <==> cfg.marker_enabled && i < n
            &&& steps.contains(Step::Lines) <==> cfg.line_enabled && n >= 2
            &&& steps.contains(Step::Text) <==> cfg.text_enabled && n >= 1
        }),
{
    broadcast use vstd::seq_lib::lemma_seq_concat_contains_all_elements;

    let m = n as int;
    let steps = steps_of(m, cfg);
    if n > 0 {
        let none = Seq::<Step>::empty();
        let a = if cfg.box_enabled {
            box_steps(m, cfg, m)
        } else {
            none
        };
        let b = if cfg.marker_enabled {
            marker_steps(m)
        } else {
            none
        };
        let c = if cfg.line_enabled && n >= 2 {
            seq![Step::Lines]
        } else {
            none
        };
        let d = if cfg.text_enabled {
            seq![Step::Text]
        } else {
            none
        };
        assert(steps == a + b + c + d);
        assert forall|s: Step| #[trigger] steps.contains(s) <==> a.contains(s) || b.contains(s)
            || c.contains(s) || d.contains(s) by {}
        lemma_box_step_indices(m, cfg, m);
        lemma_box_steps_listed(m, cfg, m, i);
        assert forall|s: Step| #[trigger] a.contains(s) implies layer(s) == 0 by {
            let k = choose|k: int| 0 <= k < a.len() && a[k] == s;
            assert(layer(a[k]) == 0);
        }
        assert forall|source: Option<usize>| #[trigger]
            a.contains(Step::Fill { index: i, source }) implies i < n && source == source_of(
            m,
            cfg,
            i as int,
        ) by {
            let k = choose|k: int| 0 <= k < a.len() && a[k] == (Step::Fill { index: i, source });
            assert(a[k] is Fill);
        }
        assert forall|s: Step| #[trigger] b.contains(s) implies layer(s) == 1 by {}
        assert forall|s: Step| #[trigger] c.contains(s) implies s == Step::Lines by {}
        assert forall|s: Step| #[trigger] d.contains(s) implies s == Step::Text by {}
        if cfg.marker_enabled && i < n {
            assert(b[i as int] == (Step::Marker { index: i }));
        }
        if c.len() > 0 {
            assert(c[0] == Step::Lines);
        }
        if d.len() > 0 {
            assert(d[0] == Step::Text);
        }
        if cfg.box_enabled && cfg.fill_enabled && i < n {
            assert(steps.contains(Step::Fill { index: i, source: source_of(m, cfg, i as int) }));
        }
    } else {
        assert forall|s: Step| !#[trigger] steps.contains(s) by {}
    }
}

/// Boxes are drawn first, one after the other, each filled before it is stroked;
/// then the markers in the order of the boxes, then the lines, then the text.
#[verifier::spinoff_prover]
#[verifier::rlimit(40)]
pub proof fn law_steps_come_in_layers(n: usize, cfg: FilterConfig, i: int, j: int)
    requires
        0 <= i < j < steps_of(n as int, cfg).len(),
    ensures
        ({
            let (a, b) = (steps_of(n as int, cfg)[i], steps_of(n as int, cfg)[j]);
            layer(a) < layer(b) || layer(a) == layer(b) && turn(a) < turn(b)
        }),
{
    let m = n as int;
    lemma_box_steps_listed(m, cfg, m, 0);
    let boxes = if cfg.box_enabled {
        box_steps(m, cfg, m)
    } else {
        Seq::empty()
    };
    let steps = steps_of(m, cfg);
    if i < boxes.len() {
        assert(steps[i] == boxes[i]);
    }
    if j < boxes.len() {
        assert(steps[j] == boxes[j]);
    }
}

} // verus!

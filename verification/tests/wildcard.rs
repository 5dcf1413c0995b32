use hl_blobox::wildcard::formula::{BoxVariable, Formula, Operator};
use hl_blobox::wildcard::numbers::{decimal, hex_byte, padded_byte, parse_int, trim_fraction};
use hl_blobox::wildcard::{
    eval_wildcard, expand_wildcards, resume, BoxContext, Expansion, Rng,
};

fn context() -> BoxContext {
    BoxContext {
        x: 10,
        y: 20,
        w: 30,
        h: 40,
        r: 255,
        g: 128,
        b: 0,
        pixels: 1200,
        total_pixels: 4096,
        id: 3,
    }
}

fn variable(ctx: &BoxContext, v: BoxVariable) -> f64 {
    match v {
        BoxVariable::X => ctx.x as f64,
        BoxVariable::Y => ctx.y as f64,
        BoxVariable::Width => ctx.w as f64,
        BoxVariable::Height => ctx.h as f64,
        BoxVariable::Red => ctx.r as f64,
        BoxVariable::Green => ctx.g as f64,
        BoxVariable::Blue => ctx.b as f64,
        BoxVariable::Pixels => ctx.pixels as f64,
        BoxVariable::Id => ctx.id as f64,
    }
}

fn value(f: &Formula, text: &[char], ctx: &BoxContext) -> Option<f64> {
    Some(match f {
        Formula::Number { start, end } => {
            let literal: String = text[*start..*end].iter().collect();
            literal.parse::<f64>().ok()?
        }
        Formula::Variable(v) => variable(ctx, *v),
        Formula::Negate(a) => -value(a, text, ctx)?,
        Formula::Binary(op, a, b) => {
            let x = value(a, text, ctx)?;
            let y = value(b, text, ctx)?;
            match op {
                Operator::Add => x + y,
                Operator::Subtract => x - y,
                Operator::Multiply => x * y,
                Operator::Divide => {
                    if y == 0.0 {
                        return None;
                    }
                    x / y
                }
            }
        }
    })
}

fn real_text(v: f64) -> String {
    if v.fract() == 0.0 && v.abs() < 1e15 {
        decimal(v as i64)
    } else {
        trim_fraction(&format!("{:.6}", v))
    }
}

/// Expands a template to the end, working out the real numbers on the way.
fn expand(text: &str, ctx: &BoxContext, rng: &mut Rng) -> String {
    let step = expand_wildcards(text, ctx, rng);
    let mut out = step.out;
    let mut next = step.pending;
    while let Some(pending) = next {
        let inner: Vec<char> = pending.inner.chars().collect();
        let answer = match &pending.task {
            Expansion::Percent { decimals } => {
                let share = ctx.pixels as f64 / ctx.total_pixels.max(1) as f64 * 100.0;
                format!("{:.*}", *decimals as usize, share)
            }
            Expansion::Real(f) => value(f, &inner, ctx).map(real_text).unwrap_or_default(),
            Expansion::RandomReal { lo, hi } => {
                let (lo, hi) = (lo.parse::<f64>().unwrap(), hi.parse::<f64>().unwrap());
                let t = rng.next_u32() as f64 / u32::MAX as f64;
                real_text(lo + (hi - lo) * t)
            }
            other => panic!("unexpected task {:?}", other),
        };
        next = resume(&mut out, pending, &answer, ctx, rng);
    }
    out
}

#[test]
fn test_wildcard_expansion() {
    let mut rng = Rng::new(42);
    let ctx = context();
    assert_eq!(expand("$[box_x_position]", &ctx, &mut rng), "10");
    assert_eq!(expand("$[box_width]x$[box_height]", &ctx, &mut rng), "30x40");
    assert_eq!(expand("$[box_pixel_percent_1]", &ctx, &mut rng), "29.3");
    assert_eq!(expand("$[box_id]", &ctx, &mut rng), "3");
    assert_eq!(expand("$[box_x_position + 10]", &ctx, &mut rng), "20");
    let v = expand("$[random_int_1,10]", &ctx, &mut rng);
    assert!(v.parse::<i64>().is_ok());
    assert_eq!(expand("$[unknown]", &ctx, &mut rng), "$[unknown]");
}

#[test]
fn text_outside_of_blocks_comes_through() {
    let mut rng = Rng::new(42);
    let ctx = context();
    let p = expand_wildcards("a $ b [c] 100%", &ctx, &mut rng);
    assert_eq!(p.out, "a $ b [c] 100%");
    assert!(p.pending.is_none());
    assert_eq!(expand_wildcards("", &ctx, &mut rng).out, "");
    assert_eq!(expand_wildcards("$[open", &ctx, &mut rng).out, "$[open");
    assert_eq!(
        expand_wildcards("<$[box_id]> $[x] <$[box_id]>", &ctx, &mut rng).out,
        "<3> $[x] <3>"
    );
    assert_eq!(rng.next_u32(), 1456360119);
}

#[test]
fn every_character_outside_of_blocks_stays() {
    let mut rng = Rng::new(42);
    let ctx = context();
    let out = expand_wildcards("é$[box_id]", &ctx, &mut rng).out;
    assert_eq!(out, "é3");
    let out = expand_wildcards("箱$[box_id]番 🎈", &ctx, &mut rng).out;
    assert_eq!(out, "箱3番 🎈");
    let kept = expand_wildcards("$[é]", &ctx, &mut rng).out;
    assert_eq!(kept, "$[é]");
}

#[test]
fn templates_expand_in_parts() {
    let ctx = context();
    let first = "No. $[box_id] $[random_hex_4] $ [x] ";
    let second = "at $[random_hex_4]é $[y";
    let mut rng = Rng::new(42);
    let whole = expand_wildcards(&format!("{first}{second}"), &ctx, &mut rng);
    let mut part_rng = Rng::new(42);
    let a = expand_wildcards(first, &ctx, &mut part_rng);
    let b = expand_wildcards(second, &ctx, &mut part_rng);
    assert_eq!(whole.out, "No. 3 7303 $ [x] at 726bé $[y");
    assert_eq!(whole.out, a.out + &b.out);
    assert_eq!(rng.next_u32(), part_rng.next_u32());

    let whole = expand_wildcards("a$[1/3]b$[box_id]", &ctx, &mut rng);
    let first = expand_wildcards("a$[1/3]b", &ctx, &mut rng);
    assert_eq!(whole.out, first.out);
    let rest = first.pending.unwrap().rest + "$[box_id]";
    assert_eq!(whole.pending.unwrap().rest, rest);
}

#[test]
fn answers_complete_a_template() {
    let ctx = context();
    let template = "a$[1/3]b$[random_hex_4]c$[random_float_0,1]d$[random_hex_4]$[1 / (0.5 - 0.5)]e";
    let mut rng = Rng::new(42);
    let p = expand_wildcards(template, &ctx, &mut rng);
    let mut out = p.out;
    assert_eq!(out, "a");

    let next = resume(&mut out, p.pending.unwrap(), "0.333333", &ctx, &mut rng).unwrap();
    assert_eq!(out, "a0.333333b7303c");
    assert_eq!(next.inner, "random_float_0,1");
    assert!(matches!(&next.task, Expansion::RandomReal { lo, hi } if lo == "0" && hi == "1"));
    assert_eq!(next.rest, "d$[random_hex_4]$[1 / (0.5 - 0.5)]e");

    // Working out a random number draws one.
    let mut fork = Rng::new(42);
    for _ in 0..4 {
        fork.next_u32();
    }
    assert_eq!(rng.next_u32(), fork.next_u32());
    let next = resume(&mut out, next, "é", &ctx, &mut rng).unwrap();
    assert_eq!(out, "a0.333333b7303céd26b5");
    assert_eq!((next.inner.as_str(), next.rest.as_str()), ("1 / (0.5 - 0.5)", "e"));

    let end = resume(&mut out, next, "", &ctx, &mut rng);
    assert!(end.is_none());
    assert_eq!(out, "a0.333333b7303céd26b5$[1 / (0.5 - 0.5)]e");
}

#[test]
fn unclosed_blocks_come_through() {
    let ctx = context();
    let mut rng = Rng::new(42);
    for template in ["$[box_id", "]$[random_hex_8", "$[a $[box_id", "$", "a$[", "[$é$"] {
        let p = expand_wildcards(template, &ctx, &mut rng);
        assert_eq!(p.out, template);
        assert!(p.pending.is_none());
    }
    assert_eq!(rng.next_u32(), 1456360119);
}

#[test]
fn colours_are_shown_in_every_form() {
    let mut rng = Rng::new(42);
    let ctx = context();
    let show = |block: &str, rng: &mut Rng| expand_wildcards(block, &ctx, rng).out;
    assert_eq!(show("$[box_color_rgb_hex_upper]", &mut rng), "FF8000");
    assert_eq!(show("$[box_color_rgb_hex_lower]", &mut rng), "ff8000");
    assert_eq!(show("$[box_color_rgb]", &mut rng), "255,128,000");
    assert_eq!(show("$[box_color_r_hex_upper]", &mut rng), "FF");
    assert_eq!(show("$[box_color_g_hex_upper]", &mut rng), "80");
    assert_eq!(show("$[box_color_b_hex_upper]", &mut rng), "00");
    assert_eq!(show("$[box_color_r_hex_lower]", &mut rng), "ff");
    assert_eq!(show("$[box_color_g_hex_lower]", &mut rng), "80");
    assert_eq!(show("$[box_color_b_hex_lower]", &mut rng), "00");
    assert_eq!(show("$[box_color_r]", &mut rng), "255");
    assert_eq!(show("$[box_color_g]", &mut rng), "128");
    assert_eq!(show("$[box_color_b]", &mut rng), "0");
    assert_eq!(show("$[box_pixel_count]", &mut rng), "1200");
}

#[test]
fn formulas_follow_the_rules_of_arithmetic() {
    let mut rng = Rng::new(42);
    let ctx = context();
    let mut show = |block: &str| expand(block, &ctx, &mut rng);
    assert_eq!(show("$[1 + 2 * 3]"), "7");
    assert_eq!(show("$[(1 + 2) * 3]"), "9");
    assert_eq!(show("$[-box_id - -2]"), "-1");
    assert_eq!(show("$[10 - 3 - 2]"), "5");
    assert_eq!(show("$[box_width * box_height / 100]"), "12");
    assert_eq!(show("$[7 / 2]"), "3.5");
    assert_eq!(show("$[1 / 3]"), "0.333333");
    assert_eq!(show("$[0.1 + 0.2]"), "0.3");
    assert_eq!(show("$[1e3]"), "1000");
    assert_eq!(show("$[2 * .5]"), "1");
    assert_eq!(show("$[-7 / 7]"), "-1");
}

#[test]
fn formulas_without_a_value_stay() {
    let mut rng = Rng::new(42);
    let ctx = context();
    let mut show = |block: &str| expand(block, &ctx, &mut rng);
    for block in [
        "$[1 / 0]",
        "$[1 / (box_id - 3)]",
        "$[1 +]",
        "$[(1]",
        "$[1 2]",
        "$[box_nothing]",
        "$[]",
        "$[1..2]",
        "$[0.5 / 0]",
    ] {
        assert_eq!(show(block), block);
    }
}

#[test]
fn random_blocks_follow_the_seed() {
    let ctx = context();
    let show = |block: &str| expand(block, &ctx, &mut Rng::new(42));
    assert_eq!(show("$[random_hex_8]"), "7303726b");
    assert_eq!(show("$[random_alphanumeric_upper_5]"), "15MP9");
    assert_eq!(show("$[random_int_1,10]"), "1");
    assert_eq!(show("$[random_int_5,5]"), "5");
    assert_eq!(show("$[random_choice_red,green,blue]"), "red");
    assert_eq!(show("$[random_bool]"), "True");
    assert_eq!(show("$[random_alphabet_lower_4]").len(), 4);
    assert!(show("$[random_string_40]").chars().all(|c| c.is_ascii_graphic()));
    assert!(show("$[random_special_9]").chars().all(|c| c.is_ascii_punctuation()));
    assert!(show("$[random_alphabet_9]").chars().all(|c| c.is_ascii_alphabetic()));
    assert!(show("$[random_alphabet_upper_9]").chars().all(|c| c.is_ascii_uppercase()));
    assert!(show("$[random_alphanumeric_9]").chars().all(|c| c.is_ascii_alphanumeric()));
    let lower = show("$[random_alphanumeric_lower_9]");
    assert!(lower.chars().all(|c| c.is_ascii_lowercase() || c.is_ascii_digit()));
    let v = show("$[random_float_2,3]").parse::<f64>().unwrap();
    assert!((2.0..=3.0).contains(&v));
}

#[test]
fn random_blocks_without_a_text_stay() {
    let ctx = context();
    let show = |block: &str| expand(block, &ctx, &mut Rng::new(42));
    assert_eq!(show("$[random_hex_0]"), "$[random_hex_0]");
    assert_eq!(show("$[random_choice_]"), "$[random_choice_]");
    assert_eq!(show("$[random_int_1]"), "$[random_int_1]");
    assert_eq!(show("$[random_float_1,x]"), "$[random_float_1,x]");
    assert_eq!(show("$[box_pixel_percent_6]"), "$[box_pixel_percent_6]");
}

fn chars(text: &str) -> Vec<char> {
    text.chars().collect()
}

#[test]
fn random_text_of_no_possible_length_stays() {
    let ctx = context();
    let mut rng = Rng::new(42);
    for inner in ["random_hex_-1", "random_string_-9223372036854775808"] {
        let e = eval_wildcard(&chars(inner), &ctx, &mut rng);
        assert!(matches!(e, Expansion::Nothing));
    }
    let p = expand_wildcards("<$[random_hex_-1]>", &ctx, &mut rng);
    assert_eq!(p.out, "<$[random_hex_-1]>");
    assert!(p.pending.is_none());
    assert_eq!(rng.next_u32(), 1456360119);
}

#[test]
fn real_numbers_are_left_to_the_caller() {
    let ctx = context();
    let mut rng = Rng::new(42);
    let e = eval_wildcard(&chars("box_pixel_percent_2"), &ctx, &mut rng);
    assert!(matches!(e, Expansion::Percent { decimals: 2 }));
    let e = eval_wildcard(&chars("random_float_-1.5,inf"), &ctx, &mut rng);
    assert!(matches!(e, Expansion::RandomReal { lo, hi } if lo == "-1.5" && hi == "inf"));
    let e = eval_wildcard(&chars("1.5"), &ctx, &mut rng);
    assert!(matches!(e, Expansion::Real(Formula::Number { start: 0, end: 3 })));
    let e = eval_wildcard(&chars("nonsense"), &ctx, &mut rng);
    assert!(matches!(e, Expansion::Nothing));
    let p = expand_wildcards("a$[1/3]b", &ctx, &mut rng);
    assert_eq!(p.out, "a");
    let pending = p.pending.unwrap();
    assert_eq!((pending.inner.as_str(), pending.rest.as_str()), ("1/3", "b"));
}

#[test]
fn whole_numbers_read_and_write() {
    for v in [0, 7, -7, 42, i64::MAX, i64::MIN] {
        assert_eq!(decimal(v), v.to_string());
        assert_eq!(parse_int(&chars(&decimal(v))), Some(v));
    }
    assert_eq!(parse_int(&chars("+12")), Some(12));
    for text in ["", "-", "+", "1x", " 1", "9223372036854775808", "-9223372036854775809"] {
        assert_eq!(parse_int(&chars(text)), None);
    }
    assert_eq!(hex_byte(0xAF, true), "AF");
    assert_eq!(hex_byte(0x0F, false), "0f");
    assert_eq!(padded_byte(7), "007");
    assert_eq!(trim_fraction("1.250000"), "1.25");
    assert_eq!(trim_fraction("3.000000"), "3");
}
